//! The locking-script virtual machine. A program is whitespace-separated
//! tokens; literals are pushed onto a stack of strings, the three opcodes
//! pop and check. Evaluation either yields the final stack or fails, and a
//! spend is authorized exactly when evaluation of solution-then-lock
//! succeeds.

use vstd::prelude::*;
use vstd::string::StrSliceExecFns;
use crate::hex::{hex_dec, hex_bytes, is_hex_str, hex_enc, is_hex_digit};
use crate::ecdsa::{addr_of, sig_check, pb_key_to_addr, valid_signature, solution_script, lock_script};

verus! {

/// Lower-cased character code: ASCII letters fold, everything else stays.
pub open spec fn lower_code(c: char) -> u32 {
    if 65 <= c as u32 && c as u32 <= 90 {
        (c as u32 + 32) as u32
    } else {
        c as u32
    }
}

/// Case-insensitive comparison of a token against a keyword.
pub open spec fn is_word(tok: Seq<char>, kw: Seq<char>) -> bool {
    tok.len() == kw.len() && (forall|i: int|
        0 <= i < tok.len() ==> lower_code(#[trigger] tok[i]) == lower_code(kw[i]))
}

/// One step of tokenization: a space closes the current token, any other
/// character extends it.
pub open spec fn tok_step(st: (Seq<Seq<char>>, Seq<char>), c: char) -> (Seq<Seq<char>>, Seq<char>) {
    if c == ' ' {
        if st.1.len() == 0 {
            st
        } else {
            (st.0.push(st.1), Seq::empty())
        }
    } else {
        (st.0, st.1.push(c))
    }
}

/// Folds tokenization over a program's characters.
pub open spec fn tok_fold(s: Seq<char>) -> (Seq<Seq<char>>, Seq<char>)
    decreases s.len(),
{
    if s.len() == 0 {
        (Seq::empty(), Seq::empty())
    } else {
        tok_step(tok_fold(s.drop_last()), s.last())
    }
}

/// The tokens of a program: maximal runs of non-space characters.
pub open spec fn tokenize(s: Seq<char>) -> Seq<Seq<char>> {
    let st = tok_fold(s);
    if st.1.len() == 0 {
        st.0
    } else {
        st.0.push(st.1)
    }
}

/// The effect of one token on the stack; a failing opcode aborts.
pub open spec fn eval_step(stack: Seq<Seq<char>>, tok: Seq<char>) -> Option<Seq<Seq<char>>> {
    if is_word(tok, "eq"@) {
        if stack.len() < 2 {
            None
        } else if stack.last() == stack[stack.len() - 2] {
            Some(stack.take(stack.len() - 2))
        } else {
            None
        }
    } else if is_word(tok, "to_addr"@) {
        if stack.len() < 1 {
            None
        } else {
            match hex_dec(stack.last()) {
                None => None,
                Some(pk) => Some(stack.drop_last().push(addr_of(pk))),
            }
        }
    } else if is_word(tok, "verify_sig"@) {
        if stack.len() < 3 {
            None
        } else {
            let pk_hex = stack.last();
            let sig_hex = stack[stack.len() - 2];
            let msg_hex = stack[stack.len() - 3];
            if is_hex_str(pk_hex) && is_hex_str(sig_hex) && is_hex_str(msg_hex) && sig_check(
                hex_bytes(msg_hex),
                hex_bytes(sig_hex),
                hex_bytes(pk_hex),
            ) {
                Some(stack.take(stack.len() - 3).push(pk_hex))
            } else {
                None
            }
        }
    } else {
        Some(stack.push(tok))
    }
}

/// Evaluation of the tokens from position `i` on a given stack.
pub open spec fn eval_from(stack: Seq<Seq<char>>, toks: Seq<Seq<char>>, i: int) -> Option<
    Seq<Seq<char>>,
>
    decreases toks.len() - i,
{
    if i < 0 || i >= toks.len() {
        Some(stack)
    } else {
        match eval_step(stack, toks[i]) {
            None => None,
            Some(st) => eval_from(st, toks, i + 1),
        }
    }
}

/// Evaluation of a whole program from the empty stack.
pub open spec fn eval_spec(s: Seq<char>) -> Option<Seq<Seq<char>>> {
    eval_from(Seq::empty(), tokenize(s), 0)
}

/// A spend is authorized exactly when solution-then-lock evaluates.
pub open spec fn script_ok(solution: Seq<char>, lock: Seq<char>) -> bool {
    eval_spec(solution + seq![' '] + lock) is Some
}

/// The character views of a vector of strings.
pub open spec fn strs_view(v: Seq<String>) -> Seq<Seq<char>> {
    Seq::new(v.len(), |i: int| v[i]@)
}

/// Case-insensitive comparison of a token against a keyword.
fn token_is(tok: &String, kw: &str) -> (r: bool)
    ensures
        r == is_word(tok@, kw@),
{
    let tn = tok.as_str().unicode_len();
    let kn = kw.unicode_len();
    if tn != kn {
        return false;
    }
    let mut i: usize = 0;
    while i < tn
        invariant
            tn == tok@.len(),
            tn == kw@.len(),
            i <= tn,
            forall|j: int| 0 <= j < i ==> lower_code(#[trigger] tok@[j]) == lower_code(kw@[j]),
        decreases tn - i,
    {
        let a = tok.as_str().get_char(i);
        let b = kw.get_char(i);
        let ac = a as u32;
        let bc = b as u32;
        let al = if 65 <= ac && ac <= 90 {
            ac + 32
        } else {
            ac
        };
        let bl = if 65 <= bc && bc <= 90 {
            bc + 32
        } else {
            bc
        };
        if al != bl {
            return false;
        }
        i = i + 1;
    }
    true
}

/// Splits a program into its tokens.
fn tokenize_exec(s: &str) -> (r: Vec<String>)
    ensures
        strs_view(r@) == tokenize(s@),
{
    let n = s.unicode_len();
    let mut tokens: Vec<String> = Vec::new();
    let mut start: usize = 0;
    let mut i: usize = 0;
    while i < n
        invariant
            n == s@.len(),
            start <= i <= n,
            tok_fold(s@.take(i as int)).0 =~~= strs_view(tokens@),
            tok_fold(s@.take(i as int)).1 =~= s@.subrange(start as int, i as int),
        decreases n - i,
    {
        let c = s.get_char(i);
        let ghost pre = tok_fold(s@.take(i as int));
        proof {
            assert(s@.take(i + 1).drop_last() =~= s@.take(i as int));
            assert(s@.take(i + 1).last() == s@[i as int]);
        }
        if c == ' ' {
            if start < i {
                let tok = s.substring_char(start, i).to_owned();
                tokens.push(tok);
                proof {
                    assert(strs_view(tokens@) =~~= pre.0.push(pre.1));
                }
            }
            start = i + 1;
        }
        i = i + 1;
        proof {
            assert(tok_fold(s@.take(i as int)).1 =~= s@.subrange(start as int, i as int));
        }
    }
    proof {
        assert(s@.take(n as int) =~= s@);
    }
    if start < n {
        let tok = s.substring_char(start, n).to_owned();
        tokens.push(tok);
        proof {
            assert(strs_view(tokens@) =~~= tokenize(s@));
        }
    } else {
        proof {
            assert(tok_fold(s@).1 =~= Seq::<char>::empty());
            assert(strs_view(tokens@) =~~= tokenize(s@));
        }
    }
    tokens
}

/// Evaluates a program against an empty stack: the final stack, or nothing
/// as soon as an opcode fails.
pub fn eval(script: &str) -> (r: Option<Vec<String>>)
    ensures
        r is Some ==> eval_spec(script@) == Some(strs_view(r->Some_0@)),
        r is None ==> eval_spec(script@) is None,
{
    let tokens = tokenize_exec(script);
    let ghost toks = tokenize(script@);
    let mut stack: Vec<String> = Vec::new();
    let mut i: usize = 0;
    proof {
        assert(strs_view(stack@) =~~= Seq::<Seq<char>>::empty());
    }
    while i < tokens.len()
        invariant
            i <= tokens@.len(),
            strs_view(tokens@) == toks,
            toks == tokenize(script@),
            eval_spec(script@) == eval_from(strs_view(stack@), toks, i as int),
        decreases tokens@.len() - i,
    {
        let ghost sv = strs_view(stack@);
        proof {
            assert(toks[i as int] == tokens@[i as int]@);
        }
        let tok = &tokens[i];
        if token_is(tok, "eq") {
            if stack.len() < 2 {
                return None;
            }
            let a = stack.pop().unwrap();
            let b = stack.pop().unwrap();
            if !a.eq(&b) {
                return None;
            }
            proof {
                assert(strs_view(stack@) =~~= sv.take(sv.len() - 2));
            }
        } else if token_is(tok, "to_addr") {
            if stack.len() < 1 {
                return None;
            }
            let t = stack.pop().unwrap();
            let pk = match crate::hex::decode(t.as_str()) {
                Some(p) => p,
                None => {
                    return None;
                },
            };
            let addr = pb_key_to_addr(pk.as_slice());
            stack.push(addr);
            proof {
                assert(strs_view(stack@) =~~= sv.drop_last().push(addr_of(hex_bytes(sv.last()))));
            }
        } else if token_is(tok, "verify_sig") {
            if stack.len() < 3 {
                return None;
            }
            let pk_hex = stack.pop().unwrap();
            let sig_hex = stack.pop().unwrap();
            let msg_hex = stack.pop().unwrap();
            let pk = match crate::hex::decode(pk_hex.as_str()) {
                Some(p) => p,
                None => {
                    return None;
                },
            };
            let sig = match crate::hex::decode(sig_hex.as_str()) {
                Some(p) => p,
                None => {
                    return None;
                },
            };
            let msg = match crate::hex::decode(msg_hex.as_str()) {
                Some(p) => p,
                None => {
                    return None;
                },
            };
            if !valid_signature(msg.as_slice(), sig.as_slice(), pk.as_slice()) {
                return None;
            }
            stack.push(pk_hex);
            proof {
                assert(strs_view(stack@) =~~= sv.take(sv.len() - 3).push(sv.last()));
            }
        } else {
            stack.push(tok.clone());
            proof {
                assert(strs_view(stack@) =~~= sv.push(toks[i as int]));
            }
        }
        i = i + 1;
    }
    Some(stack)
}


/// Folding tokenization from a given state over further characters.
pub open spec fn tok_fold_from(st: (Seq<Seq<char>>, Seq<char>), s: Seq<char>) -> (
    Seq<Seq<char>>,
    Seq<char>,
)
    decreases s.len(),
{
    if s.len() == 0 {
        st
    } else {
        tok_step(tok_fold_from(st, s.drop_last()), s.last())
    }
}

/// Folding a concatenation continues from the left piece's state.
proof fn lemma_tok_fold_append(a: Seq<char>, b: Seq<char>)
    ensures
        tok_fold(a + b) == tok_fold_from(tok_fold(a), b),
    decreases b.len(),
{
    if b.len() == 0 {
        assert(a + b =~= a);
    } else {
        lemma_tok_fold_append(a, b.drop_last());
        assert((a + b).drop_last() =~= a + b.drop_last());
        assert((a + b).last() == b.last());
    }
}

/// Folding from the empty state is the plain fold.
proof fn lemma_tok_fold_base(s: Seq<char>)
    ensures
        tok_fold(s) == tok_fold_from((Seq::<Seq<char>>::empty(), Seq::<char>::empty()), s),
    decreases s.len(),
{
    if s.len() > 0 {
        lemma_tok_fold_base(s.drop_last());
    }
}

/// Tokens already closed pass through the rest of the fold unchanged.
proof fn lemma_tok_fold_from_prefix(toks: Seq<Seq<char>>, s: Seq<char>)
    ensures
        ({
            let base = tok_fold_from((Seq::<Seq<char>>::empty(), Seq::<char>::empty()), s);
            tok_fold_from((toks, Seq::<char>::empty()), s) == (toks + base.0, base.1)
        }),
    decreases s.len(),
{
    let base = tok_fold_from((Seq::<Seq<char>>::empty(), Seq::<char>::empty()), s);
    if s.len() == 0 {
        assert(toks + base.0 =~= toks);
    } else {
        lemma_tok_fold_from_prefix(toks, s.drop_last());
        let base_d = tok_fold_from(
            (Seq::<Seq<char>>::empty(), Seq::<char>::empty()),
            s.drop_last(),
        );
        if s.last() == ' ' && base_d.1.len() != 0 {
            assert((toks + base_d.0).push(base_d.1) =~= toks + base_d.0.push(base_d.1));
        }
    }
}

/// Tokenization splits at a space: the tokens of two pieces joined by one
/// space are the two pieces' tokens in order.
pub proof fn lemma_tokenize_join(a: Seq<char>, b: Seq<char>)
    ensures
        tokenize(a + seq![' '] + b) == tokenize(a) + tokenize(b),
{
    let u = a + seq![' '];
    assert(u.drop_last() =~= a);
    assert(u.last() == ' ');
    assert(tok_fold(u) == tok_step(tok_fold(a), ' '));
    assert(tok_fold(u) == (tokenize(a), Seq::<char>::empty()));
    assert(u + b =~= a + seq![' '] + b);
    lemma_tok_fold_append(u, b);
    lemma_tok_fold_base(b);
    lemma_tok_fold_from_prefix(tokenize(a), b);
    let base = tok_fold_from((Seq::<Seq<char>>::empty(), Seq::<char>::empty()), b);
    assert(tok_fold(u + b) == (tokenize(a) + base.0, base.1));
    if base.1.len() == 0 {
        assert(tokenize(u + b) =~~= tokenize(a) + tokenize(b));
    } else {
        assert((tokenize(a) + base.0).push(base.1) =~= tokenize(a) + base.0.push(base.1));
        assert(tokenize(u + b) =~~= tokenize(a) + tokenize(b));
    }
    assert(tokenize(a + seq![' '] + b) =~~= tokenize(a) + tokenize(b));
}

/// A run of non-space characters folds to one open token.
proof fn lemma_tok_fold_nospace(s: Seq<char>)
    requires
        forall|i: int| 0 <= i < s.len() ==> s[i] != ' ',
    ensures
        tok_fold(s) == (Seq::<Seq<char>>::empty(), s),
    decreases s.len(),
{
    if s.len() > 0 {
        lemma_tok_fold_nospace(s.drop_last());
        assert(s.drop_last().push(s.last()) =~= s);
    }
}

/// A nonempty text without spaces is one single token.
pub proof fn lemma_tokenize_single(s: Seq<char>)
    requires
        s.len() > 0,
        forall|i: int| 0 <= i < s.len() ==> s[i] != ' ',
    ensures
        tokenize(s) == seq![s],
{
    lemma_tok_fold_nospace(s);
    assert(tokenize(s) =~~= seq![s]);
}

/// A token of hex digits is no opcode: each opcode holds a character that
/// no hex digit folds to.
proof fn lemma_hex_token_not_opcode(s: Seq<char>)
    requires
        forall|i: int| 0 <= i < s.len() ==> is_hex_digit(#[trigger] s[i]),
    ensures
        !is_word(s, "eq"@),
        !is_word(s, "to_addr"@),
        !is_word(s, "verify_sig"@),
{
    reveal_strlit("eq");
    reveal_strlit("to_addr");
    reveal_strlit("verify_sig");
    if is_word(s, "eq"@) {
        assert(lower_code(s[1]) == lower_code("eq"@[1]));
        assert("eq"@[1] == 'q');
        assert(is_hex_digit(s[1]));
        assert(false);
    }
    if is_word(s, "to_addr"@) {
        assert(lower_code(s[2]) == lower_code("to_addr"@[2]));
        assert("to_addr"@[2] == '_');
        assert(is_hex_digit(s[2]));
        assert(false);
    }
    if is_word(s, "verify_sig"@) {
        assert(lower_code(s[0]) == lower_code("verify_sig"@[0]));
        assert("verify_sig"@[0] == 'v');
        assert(is_hex_digit(s[0]));
        assert(false);
    }
}

/// A correctly signed standard solution authorizes the standard lock: the
/// solution's digest, signature and key pass the signature check, the
/// derived address equals the lock's own, and evaluation ends on an empty
/// stack. The two conditions on `addr` hold of every address that
/// `pb_key_to_addr` returns: at least 25 Base58 characters, none a space.
pub proof fn lemma_standard_spend_authorized(
    msg: Seq<u8>,
    sig: Seq<u8>,
    pk: Seq<u8>,
    addr: Seq<char>,
)
    requires
        msg.len() > 0,
        sig.len() > 0,
        pk.len() > 0,
        sig_check(msg, sig, pk),
        addr == addr_of(pk),
        addr.len() > 10,
        forall|i: int| 0 <= i < addr.len() ==> addr[i] != ' ',
    ensures
        eval_spec(solution_script(msg, sig, pk) + seq![' '] + lock_script(addr)) == Some(
            Seq::<Seq<char>>::empty(),
        ),
        script_ok(solution_script(msg, sig, pk), lock_script(addr)),
{
    reveal_strlit("eq");
    reveal_strlit("to_addr");
    reveal_strlit("verify_sig");
    reveal_strlit("verify_sig to_addr ");
    reveal_strlit(" eq");
    let hm = hex_enc(msg);
    let hs = hex_enc(sig);
    let hp = hex_enc(pk);
    crate::hex::lemma_hex_enc_shape(msg);
    crate::hex::lemma_hex_enc_shape(sig);
    crate::hex::lemma_hex_enc_shape(pk);
    crate::hex::lemma_hex_roundtrip(msg);
    crate::hex::lemma_hex_roundtrip(sig);
    crate::hex::lemma_hex_roundtrip(pk);
    assert forall|i: int| 0 <= i < hm.len() implies hm[i] != ' ' by {
        assert(is_hex_digit(hm[i]));
    }
    assert forall|i: int| 0 <= i < hs.len() implies hs[i] != ' ' by {
        assert(is_hex_digit(hs[i]));
    }
    assert forall|i: int| 0 <= i < hp.len() implies hp[i] != ' ' by {
        assert(is_hex_digit(hp[i]));
    }
    lemma_tokenize_single(hm);
    lemma_tokenize_single(hs);
    lemma_tokenize_single(hp);
    // the solution is its three hex pieces
    let sol = solution_script(msg, sig, pk);
    let sol_a = hm + seq![' '] + hs;
    assert(sol =~= sol_a + seq![' '] + hp);
    lemma_tokenize_join(hm, hs);
    lemma_tokenize_join(sol_a, hp);
    assert(tokenize(sol) == seq![hm, hs] + seq![hp]);
    // the lock is its two opcodes, the address, and the closing comparison
    let vs = "verify_sig"@;
    let ta = "to_addr"@;
    let eq = "eq"@;
    assert(forall|i: int| 0 <= i < vs.len() ==> vs[i] != ' ');
    assert(forall|i: int| 0 <= i < ta.len() ==> ta[i] != ' ');
    assert(forall|i: int| 0 <= i < eq.len() ==> eq[i] != ' ');
    lemma_tokenize_single(vs);
    lemma_tokenize_single(ta);
    lemma_tokenize_single(eq);
    let lock = lock_script(addr);
    let tail = addr + seq![' '] + eq;
    let mid = ta + seq![' '] + tail;
    assert(lock =~= vs + seq![' '] + mid);
    lemma_tokenize_single(addr);
    lemma_tokenize_join(addr, eq);
    lemma_tokenize_join(ta, tail);
    lemma_tokenize_join(vs, mid);
    assert(tokenize(lock) == seq![vs] + (seq![ta] + (seq![addr] + seq![eq])));
    // the whole program's tokens
    let full = sol + seq![' '] + lock;
    lemma_tokenize_join(sol, lock);
    let toks = tokenize(full);
    assert(toks =~~= seq![hm, hs, hp, vs, ta, addr, eq]);
    // no literal collides with an opcode
    lemma_hex_token_not_opcode(hm);
    lemma_hex_token_not_opcode(hs);
    lemma_hex_token_not_opcode(hp);
    assert(!is_word(addr, eq) && !is_word(addr, ta) && !is_word(addr, vs));
    assert(is_word(vs, vs) && is_word(ta, ta) && is_word(eq, eq));
    assert(!is_word(vs, eq) && !is_word(vs, ta));
    assert(!is_word(ta, eq));
    // step the evaluation through the seven tokens
    let st0 = Seq::<Seq<char>>::empty();
    let st1 = seq![hm];
    let st2 = seq![hm, hs];
    let st3 = seq![hm, hs, hp];
    let st4 = seq![hp];
    let st5 = seq![addr_of(pk)];
    let st6 = seq![addr_of(pk), addr];
    assert(eval_step(st0, toks[0]) == Some(st1));
    assert(eval_step(st1, toks[1]) == Some(st2));
    assert(eval_step(st2, toks[2]) == Some(st3));
    assert(eval_step(st3, toks[3]) == Some(st4)) by {
        assert(st3.last() == hp && st3[1] == hs && st3[0] == hm);
        assert(hex_bytes(hm) == msg && hex_bytes(hs) == sig && hex_bytes(hp) == pk);
        assert(st3.take(0) =~= Seq::<Seq<char>>::empty());
        assert(st3.take(0).push(hp) =~= st4);
    }
    assert(eval_step(st4, toks[4]) == Some(st5)) by {
        assert(hex_dec(hp) == Some(pk));
        assert(st4.drop_last() =~= Seq::<Seq<char>>::empty());
        assert(st4.drop_last().push(addr_of(pk)) =~= st5);
    }
    assert(eval_step(st5, toks[5]) == Some(st6)) by {
        assert(st5.push(addr) =~= st6);
    }
    assert(eval_step(st6, toks[6]) == Some(st0)) by {
        assert(st6.last() == addr && st6[0] == addr_of(pk));
        assert(st6.take(0) =~= st0);
    }
    assert(eval_from(st0, toks, 0) == eval_from(st1, toks, 1));
    assert(eval_from(st1, toks, 1) == eval_from(st2, toks, 2));
    assert(eval_from(st2, toks, 2) == eval_from(st3, toks, 3));
    assert(eval_from(st3, toks, 3) == eval_from(st4, toks, 4));
    assert(eval_from(st4, toks, 4) == eval_from(st5, toks, 5));
    assert(eval_from(st5, toks, 5) == eval_from(st6, toks, 6));
    assert(eval_from(st6, toks, 6) == eval_from(st0, toks, 7));
    assert(eval_from(st0, toks, 7) == Some(st0));
    assert(eval_spec(full) == Some(st0));
}

} // verus!

