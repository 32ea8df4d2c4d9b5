//! Verified text utilities: decimal rendering and parsing of integers,
//! lexicographic ordering of strings, and suffix / substring matching.

use vstd::prelude::*;

verus! {

/// The character for one decimal digit value below ten.
pub open spec fn digit_char(d: nat) -> char {
    if d == 0 {
        '0'
    } else if d == 1 {
        '1'
    } else if d == 2 {
        '2'
    } else if d == 3 {
        '3'
    } else if d == 4 {
        '4'
    } else if d == 5 {
        '5'
    } else if d == 6 {
        '6'
    } else if d == 7 {
        '7'
    } else if d == 8 {
        '8'
    } else {
        '9'
    }
}

/// Decimal rendering of `n`: most significant digit first, no leading zero
/// except for `n == 0` itself.
pub open spec fn dec_chars(n: nat) -> Seq<char>
    decreases n,
{
    if n < 10 {
        seq![digit_char(n)]
    } else {
        dec_chars(n / 10) + seq![digit_char(n % 10)]
    }
}

/// One decimal digit as a string slice.
fn digit_to_str(d: u64) -> (s: &'static str)
    requires
        d < 10,
    ensures
        s@ =~= seq![digit_char(d as nat)],
{
    proof {
        reveal_strlit("0");
        reveal_strlit("1");
        reveal_strlit("2");
        reveal_strlit("3");
        reveal_strlit("4");
        reveal_strlit("5");
        reveal_strlit("6");
        reveal_strlit("7");
        reveal_strlit("8");
        reveal_strlit("9");
    }
    if d == 0 {
        "0"
    } else if d == 1 {
        "1"
    } else if d == 2 {
        "2"
    } else if d == 3 {
        "3"
    } else if d == 4 {
        "4"
    } else if d == 5 {
        "5"
    } else if d == 6 {
        "6"
    } else if d == 7 {
        "7"
    } else if d == 8 {
        "8"
    } else {
        "9"
    }
}

/// Renders `n` in decimal.
pub fn u64_to_string(n: u64) -> (s: String)
    ensures
        s@ == dec_chars(n as nat),
    decreases n,
{
    if n < 10 {
        digit_to_str(n).to_owned()
    } else {
        let mut s = u64_to_string(n / 10);
        s.append(digit_to_str(n % 10));
        s
    }
}

/// Whether `c` is a decimal digit.
pub open spec fn is_digit(c: char) -> bool {
    '0' as u32 <= c as u32 <= '9' as u32
}

/// The value of a decimal digit character.
pub open spec fn digit_val(c: char) -> nat {
    (c as u32 - '0' as u32) as nat
}

/// The value of a sequence of decimal digit characters, most significant
/// digit first.
pub open spec fn dec_val(s: Seq<char>) -> nat
    decreases s.len(),
{
    if s.len() == 0 {
        0
    } else {
        dec_val(s.drop_last()) * 10 + digit_val(s.last())
    }
}

/// Every character of `s` is a decimal digit.
pub open spec fn all_digits(s: Seq<char>) -> bool {
    forall|i: int| 0 <= i < s.len() ==> is_digit(#[trigger] s[i])
}

/// The rendering of `n` consists of digits and reads back as `n`.
pub proof fn lemma_dec_chars_val(n: nat)
    ensures
        all_digits(dec_chars(n)),
        dec_val(dec_chars(n)) == n,
        dec_chars(n).len() >= 1,
        n >= 10 ==> dec_chars(n)[0] != '0',
        n < 10 ==> dec_chars(n).len() == 1,
    decreases n,
{
    if n < 10 {
        let s = dec_chars(n);
        assert(s.drop_last() =~= Seq::<char>::empty());
        assert(digit_val(digit_char(n)) == n);
        assert(dec_val(s.drop_last()) == 0);
        assert(s.last() == digit_char(n));
        assert(dec_val(s) == dec_val(s.drop_last()) * 10 + digit_val(s.last()));
    } else {
        lemma_dec_chars_val(n / 10);
        let s = dec_chars(n);
        let hi = dec_chars(n / 10);
        assert(s.drop_last() =~= hi);
        assert(s.last() == digit_char(n % 10));
        assert(digit_val(digit_char(n % 10)) == n % 10);
        assert(dec_val(s) == (n / 10) * 10 + n % 10);
        assert((n / 10) * 10 + n % 10 == n) by (nonlinear_arith);
        assert(forall|i: int| 0 <= i < s.len() ==> is_digit(#[trigger] s[i])) by {
            assert(forall|i: int| 0 <= i < hi.len() ==> s[i] == hi[i]);
            assert(s[s.len() - 1] == digit_char(n % 10));
        }
    }
}

/// Decimal renderings are injective.
pub proof fn lemma_dec_chars_injective(m: nat, n: nat)
    requires
        dec_chars(m) == dec_chars(n),
    ensures
        m == n,
{
    lemma_dec_chars_val(m);
    lemma_dec_chars_val(n);
}

/// Strict lexicographic order on character sequences, by code point.
pub open spec fn seq_lt(a: Seq<char>, b: Seq<char>) -> bool
    decreases a.len(), b.len(),
{
    b.len() > 0 && (a.len() == 0 || (a[0] as u32) < (b[0] as u32) || (a[0] == b[0] && seq_lt(
        a.skip(1),
        b.skip(1),
    )))
}

/// Lexicographic order is transitive.
pub proof fn lemma_seq_lt_trans(a: Seq<char>, b: Seq<char>, c: Seq<char>)
    requires
        seq_lt(a, b),
        seq_lt(b, c),
    ensures
        seq_lt(a, c),
    decreases a.len(), b.len(), c.len(),
{
    if a.len() != 0 && !((a[0] as u32) < (c[0] as u32)) {
        if a[0] == b[0] && b[0] == c[0] {
            lemma_seq_lt_trans(a.skip(1), b.skip(1), c.skip(1));
        }
    }
}

/// Lexicographic order is a total order: two sequences are equal or one is
/// strictly below the other.
pub proof fn lemma_seq_lt_total(a: Seq<char>, b: Seq<char>)
    ensures
        seq_lt(a, b) || seq_lt(b, a) || a == b,
        seq_lt(a, b) ==> !seq_lt(b, a) && a != b,
    decreases a.len(), b.len(),
{
    if a.len() == 0 && b.len() == 0 {
        assert(a =~= b);
    } else if a.len() == 0 {
        assert(seq_lt(a, b));
    } else if b.len() == 0 {
        assert(seq_lt(b, a));
    } else {
        lemma_seq_lt_total(a.skip(1), b.skip(1));
        if (a[0] as u32) < (b[0] as u32) {
            assert(seq_lt(a, b));
        } else if (b[0] as u32) < (a[0] as u32) {
            assert(seq_lt(b, a));
        } else {
            assert(a[0] == b[0]) by {
                vstd::utf8::char_u32_cast(a[0], a[0] as u32);
                vstd::utf8::char_u32_cast(b[0], b[0] as u32);
            }
            if a.skip(1) == b.skip(1) {
                assert(a =~= b) by {
                    assert(forall|i: int|
                        1 <= i < a.len() ==> #[trigger] a[i] == a.skip(1)[i - 1]);
                    assert(forall|i: int|
                        1 <= i < b.len() ==> #[trigger] b[i] == b.skip(1)[i - 1]);
                }
            }
        }
    }
}

/// Equal prefixes do not affect the order of the remainders.
pub proof fn lemma_seq_lt_skip(a: Seq<char>, b: Seq<char>, i: int)
    requires
        0 <= i <= a.len(),
        i <= b.len(),
        a.subrange(0, i) == b.subrange(0, i),
    ensures
        seq_lt(a, b) == seq_lt(a.skip(i), b.skip(i)),
    decreases i,
{
    if i > 0 {
        assert(a[0] == b[0]) by {
            assert(a.subrange(0, i)[0] == a[0]);
            assert(b.subrange(0, i)[0] == b[0]);
        }
        assert(a.skip(1).subrange(0, i - 1) =~= a.subrange(0, i).skip(1));
        assert(b.skip(1).subrange(0, i - 1) =~= b.subrange(0, i).skip(1));
        lemma_seq_lt_skip(a.skip(1), b.skip(1), i - 1);
        assert(a.skip(1).skip(i - 1) =~= a.skip(i));
        assert(b.skip(1).skip(i - 1) =~= b.skip(i));
        assert(seq_lt(a, b) == seq_lt(a.skip(1), b.skip(1))) by {
            assert(!((a[0] as u32) < (b[0] as u32)));
        }
    } else {
        assert(a.skip(0) =~= a);
        assert(b.skip(0) =~= b);
    }
}

/// Three-way comparison result of two strings.
pub enum StrOrder {
    Less,
    Equal,
    Greater,
}

/// Compares two strings in lexicographic code-point order.
pub fn str_compare(a: &str, b: &str) -> (r: StrOrder)
    ensures
        r is Less <==> seq_lt(a@, b@),
        r is Equal <==> a@ == b@,
        r is Greater <==> seq_lt(b@, a@),
{
    let a_len = a.unicode_len();
    let b_len = b.unicode_len();
    let mut i: usize = 0;
    loop
        invariant
            0 <= i <= a_len,
            i <= b_len,
            a_len == a@.len(),
            b_len == b@.len(),
            a@.subrange(0, i as int) == b@.subrange(0, i as int),
        decreases a_len - i,
    {
        proof {
            lemma_seq_lt_skip(a@, b@, i as int);
            lemma_seq_lt_skip(b@, a@, i as int);
        }
        if i == a_len && i == b_len {
            proof {
                assert(a@.subrange(0, i as int) =~= a@);
                assert(b@.subrange(0, i as int) =~= b@);
            }
            return StrOrder::Equal;
        }
        if i == a_len {
            return StrOrder::Less;
        }
        if i == b_len {
            return StrOrder::Greater;
        }
        let ca = a.get_char(i);
        let cb = b.get_char(i);
        if (ca as u32) < (cb as u32) {
            return StrOrder::Less;
        }
        if (cb as u32) < (ca as u32) {
            proof {
                lemma_seq_lt_total(a@.skip(i as int), b@.skip(i as int));
            }
            return StrOrder::Greater;
        }
        proof {
            assert(ca == cb);
            assert(a@.subrange(0, i + 1) =~= b@.subrange(0, i + 1));
        }
        i = i + 1;
    }
}

/// `pat` occurs in `s` starting at position `i`.
pub open spec fn matches_at(s: Seq<char>, pat: Seq<char>, i: int) -> bool {
    0 <= i && i + pat.len() <= s.len() && s.subrange(i, i + pat.len()) == pat
}

/// `pat` is a suffix of `s`, as a plain string suffix with no boundary check.
pub open spec fn is_suffix_of(pat: Seq<char>, s: Seq<char>) -> bool {
    pat.len() <= s.len() && matches_at(s, pat, s.len() - pat.len())
}

/// `pat` occurs somewhere in `s`.
pub open spec fn is_substring_of(pat: Seq<char>, s: Seq<char>) -> bool {
    exists|i: int| matches_at(s, pat, i)
}

/// Whether `pat` occurs in `s` at char position `i`.
fn matches_at_exec(s: &str, pat: &str, i: usize) -> (r: bool)
    requires
        i + pat@.len() <= s@.len(),
    ensures
        r == matches_at(s@, pat@, i as int),
{
    let s_len = s.unicode_len();
    let pat_len = pat.unicode_len();
    let mut j: usize = 0;
    loop
        invariant
            0 <= j <= pat_len,
            pat_len == pat@.len(),
            s_len == s@.len(),
            i + pat@.len() <= s@.len(),
            s@.subrange(i as int, i + j) == pat@.subrange(0, j as int),
        decreases pat_len - j,
    {
        if j == pat_len {
            proof {
                assert(s@.subrange(i as int, i + pat@.len()) =~= pat@);
            }
            return true;
        }
        let cs = s.get_char(i + j);
        let cp = pat.get_char(j);
        if cs != cp {
            proof {
                assert(s@.subrange(i as int, i + pat@.len())[j as int] == cs);
            }
            return false;
        }
        proof {
            assert(s@.subrange(i as int, i + j + 1) =~= pat@.subrange(0, j + 1));
        }
        j = j + 1;
    }
}

/// Whether `s` ends with `pat`.
pub fn str_ends_with(s: &str, pat: &str) -> (r: bool)
    ensures
        r == is_suffix_of(pat@, s@),
{
    let s_len = s.unicode_len();
    let pat_len = pat.unicode_len();
    if pat_len > s_len {
        return false;
    }
    matches_at_exec(s, pat, s_len - pat_len)
}

/// Whether `pat` occurs anywhere in `s`.
pub fn str_contains(s: &str, pat: &str) -> (r: bool)
    ensures
        r == is_substring_of(pat@, s@),
{
    let s_len = s.unicode_len();
    let pat_len = pat.unicode_len();
    if pat_len > s_len {
        return false;
    }
    let mut i: usize = 0;
    loop
        invariant
            0 <= i <= s_len - pat_len,
            s_len == s@.len(),
            pat_len == pat@.len(),
            pat_len <= s_len,
            forall|k: int| 0 <= k < i ==> !matches_at(s@, pat@, k),
        decreases s_len - pat_len - i,
    {
        if matches_at_exec(s, pat, i) {
            return true;
        }
        if i == s_len - pat_len {
            assert(forall|k: int| matches_at(s@, pat@, k) ==> 0 <= k <= s@.len() - pat@.len());
            return false;
        }
        i = i + 1;
    }
}


/// Whitespace for the purposes of rule-file tokenization: the Unicode white
/// space code points.
pub open spec fn is_ws(c: char) -> bool {
    let u = c as u32;
    ||| u == 0x09
    ||| u == 0x0A
    ||| u == 0x0B
    ||| u == 0x0C
    ||| u == 0x0D
    ||| u == 0x20
    ||| u == 0x85
    ||| u == 0xA0
    ||| u == 0x1680
    ||| (0x2000 <= u && u <= 0x200A)
    ||| u == 0x2028
    ||| u == 0x2029
    ||| u == 0x202F
    ||| u == 0x205F
    ||| u == 0x3000
}

/// Whether `c` is tokenization whitespace.
fn is_ws_char(c: char) -> (r: bool)
    ensures
        r == is_ws(c),
{
    let u = c as u32;
    u == 0x09 || u == 0x0A || u == 0x0B || u == 0x0C || u == 0x0D || u == 0x20 || u == 0x85
        || u == 0xA0 || u == 0x1680 || (0x2000 <= u && u <= 0x200A) || u == 0x2028 || u == 0x2029
        || u == 0x202F || u == 0x205F || u == 0x3000
}

/// Splits `s` into its maximal whitespace-free runs, in order.
pub open spec fn split_ws(s: Seq<char>) -> Seq<Seq<char>>
    decreases s.len(),
{
    if s.len() == 0 {
        Seq::empty()
    } else {
        let rest = split_ws(s.skip(1));
        if is_ws(s[0]) {
            rest
        } else {
            if s.len() > 1 && !is_ws(s[1]) {
                rest.update(0, seq![s[0]] + rest[0])
            } else {
                seq![seq![s[0]]] + rest
            }
        }
    }
}

/// A non-blank head character contributes a token: the split of a sequence
/// that starts with a non-blank character is non-empty and its first token
/// starts with that character.
pub proof fn lemma_split_ws_head(s: Seq<char>)
    requires
        s.len() > 0,
        !is_ws(s[0]),
    ensures
        split_ws(s).len() > 0,
        split_ws(s)[0].len() > 0,
        split_ws(s)[0][0] == s[0],
    decreases s.len(),
{
    if s.len() > 1 && !is_ws(s[1]) {
        lemma_split_ws_head(s.skip(1));
    }
}

/// Splits `s` into its maximal whitespace-free runs.
#[verifier::loop_isolation(false)]
pub fn split_tokens(s: &str) -> (tokens: Vec<String>)
    ensures
        tokens@.len() == split_ws(s@).len(),
        forall|k: int| 0 <= k < tokens@.len() ==> (#[trigger] tokens@[k])@ == split_ws(s@)[k],
{
    let len = s.unicode_len();
    // First pass, from the end: the bounds of each token.
    let mut bounds: Vec<(usize, usize)> = Vec::new();
    let mut i = len;
    loop
        invariant
            0 <= i <= len,
            bounds@.len() == split_ws(s@.skip(i as int)).len(),
            i < len && !is_ws(s@[i as int]) ==> bounds@.len() > 0 && bounds@[0].0 == i,
            forall|k: int|
                0 <= k < bounds@.len() ==> {
                    let b = #[trigger] bounds@[k];
                    &&& i <= b.0 < b.1 <= len
                    &&& s@.subrange(b.0 as int, b.1 as int) == split_ws(s@.skip(i as int))[k]
                },
        decreases i,
    {
        if i == 0 {
            break;
        }
        let ghost tail = s@.skip(i as int);
        i = i - 1;
        let ghost t = s@.skip(i as int);
        proof {
            assert(t.skip(1) =~= tail);
            assert(t[0] == s@[i as int]);
            if i + 1 < len {
                assert(t[1] == tail[0]);
                assert(tail[0] == s@[i + 1]);
            }
        }
        let c = s.get_char(i);
        if is_ws_char(c) {
            // Whitespace: tokens unchanged.
        } else if i + 1 < len && !is_ws_char(s.get_char(i + 1)) {
            // The character extends the following token.
            proof {
                lemma_split_ws_head(tail);
            }
            let ghost bseq = bounds@;
            let b0 = bounds.remove(0);
            bounds.insert(0, (i, b0.1));
            proof {
                let sp = split_ws(t);
                assert(sp == split_ws(tail).update(0, seq![t[0]] + split_ws(tail)[0]));
                assert(s@.subrange(i as int, b0.1 as int) =~= seq![s@[i as int]] + s@.subrange(
                    b0.0 as int,
                    b0.1 as int,
                ));
                assert(bounds@ =~= bseq.update(0, (i, b0.1)));
                assert(forall|k: int|
                    1 <= k < bounds@.len() ==> (#[trigger] bounds@[k]) == bseq[k]);
                assert forall|k: int| 1 <= k < sp.len() implies (#[trigger] sp[k]) == split_ws(
                    tail,
                )[k] by {
                    assert(split_ws(tail).update(0, seq![t[0]] + split_ws(tail)[0])[k]
                        == split_ws(tail)[k]);
                }
            }
        } else {
            // The character starts a fresh token of length one.
            bounds.insert(0, (i, i + 1));
            proof {
                let sp = split_ws(t);
                assert(sp == seq![seq![t[0]]] + split_ws(tail));
                assert(s@.subrange(i as int, i + 1) =~= seq![s@[i as int]]);
                assert forall|k: int| 1 <= k < sp.len() implies (#[trigger] sp[k]) == split_ws(
                    tail,
                )[k - 1] by {
                    assert((seq![seq![t[0]]] + split_ws(tail))[k] == split_ws(tail)[k - 1]);
                }
            }
        }
    }
    proof {
        assert(s@.skip(0) =~= s@);
    }
    // Second pass: materialize the tokens.
    let mut tokens: Vec<String> = Vec::new();
    let n = bounds.len();
    let mut k: usize = 0;
    loop
        invariant
            0 <= k <= n,
            tokens@.len() == k,
            forall|x: int| 0 <= x < k ==> (#[trigger] tokens@[x])@ == split_ws(s@)[x],
        decreases n - k,
    {
        if k == n {
            return tokens;
        }
        let b = bounds[k];
        let tok = s.substring_char(b.0, b.1).to_owned();
        tokens.push(tok);
        k = k + 1;
    }
}

} // verus!
