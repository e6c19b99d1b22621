//! The byte-level building blocks of the storage format: decimal numbers and
//! the canonical `"{x}x{y}"` tile key, with printers, parsers, and the proofs
//! that parsing inverts printing.

use vstd::prelude::*;

verus! {

/// ASCII code of `'x'`, the key separator.
pub const SEP: u8 = 120;

pub open spec fn is_digit(b: u8) -> bool {
    48 <= b <= 57
}

/// The decimal image of `n`, most significant digit first.
pub open spec fn spec_dec(n: nat) -> Seq<u8>
    decreases n,
{
    if n < 10 {
        seq![(48 + n) as u8]
    } else {
        spec_dec(n / 10) + seq![(48 + n % 10) as u8]
    }
}

/// The number a string of digit bytes denotes.
pub open spec fn digits_val(s: Seq<u8>) -> int
    decreases s.len(),
{
    if s.len() == 0 {
        0
    } else {
        digits_val(s.drop_last()) * 10 + (s.last() - 48)
    }
}

/// The position of the first non-digit byte at or after `i`.
pub open spec fn digit_run_end(s: Seq<u8>, i: int) -> int
    decreases s.len() - i,
{
    if i < s.len() && is_digit(s[i]) {
        digit_run_end(s, i + 1)
    } else {
        i
    }
}

/// Greedy decimal parse at position `i`: the value and the position after
/// the digits.  Rejects an empty run, a leading zero, and a run of more than
/// seven digits (no stored value is ever that wide).
pub open spec fn spec_parse_u(s: Seq<u8>, i: int) -> Option<(int, int)> {
    let j = digit_run_end(s, i);
    if i < j && j <= i + 7 && !(s[i] == 48 && j > i + 1) {
        Some((digits_val(s.subrange(i, j)), j))
    } else {
        None
    }
}

/// The canonical storage key of the coordinate `(x, y)`.
pub open spec fn key_bytes(x: nat, y: nat) -> Seq<u8> {
    spec_dec(x) + seq![SEP] + spec_dec(y)
}

/// A whole byte string read as a tile key.
pub open spec fn spec_parse_key(s: Seq<u8>) -> Option<(int, int)> {
    match spec_parse_u(s, 0) {
        Some((x, j)) => {
            if j < s.len() && s[j] == SEP {
                match spec_parse_u(s, j + 1) {
                    Some((y, k)) => {
                        if k == s.len() {
                            Some((x, y))
                        } else {
                            None
                        }
                    },
                    None => None,
                }
            } else {
                None
            }
        },
        None => None,
    }
}

/// Every byte of a decimal image is a digit, the image is never empty, and a
/// multi-digit image never starts with zero.
pub proof fn lemma_dec_shape(n: nat)
    ensures
        spec_dec(n).len() >= 1,
        forall|k: int| 0 <= k < spec_dec(n).len() ==> is_digit(#[trigger] spec_dec(n)[k]),
        n >= 10 ==> spec_dec(n)[0] != 48,
        n < 10 ==> spec_dec(n).len() == 1,
        n >= 10 ==> spec_dec(n).len() >= 2,
    decreases n,
{
    if n >= 10 {
        lemma_dec_shape(n / 10);
        assert(spec_dec(n)[0] == spec_dec(n / 10)[0]);
    }
}

/// A value below ten to the `k`-th has a decimal image at most `k` wide.
pub proof fn lemma_dec_len(n: nat, k: nat)
    requires
        1 <= k,
        n < ten_to(k),
    ensures
        spec_dec(n).len() <= k,
    decreases n,
{
    if n >= 10 {
        lemma_ten_to_7();
        assert(ten_to(k) == 10 * ten_to((k - 1) as nat));
        if k == 1 {
            assert(false);
        } else {
            assert(n / 10 < ten_to((k - 1) as nat));
            lemma_dec_len(n / 10, (k - 1) as nat);
        }
    }
}

/// Reading back the digits of `n` yields `n`.
pub proof fn lemma_digits_val_dec(n: nat)
    ensures
        digits_val(spec_dec(n)) == n,
    decreases n,
{
    if n < 10 {
        assert(spec_dec(n).drop_last() =~= Seq::<u8>::empty());
        assert(digits_val(Seq::<u8>::empty()) == 0);
    } else {
        lemma_digits_val_dec(n / 10);
        assert(spec_dec(n).drop_last() =~= spec_dec(n / 10));
    }
}

/// A digit run ends exactly where the digits stop.
pub proof fn lemma_digit_run_end(s: Seq<u8>, i: int, m: int)
    requires
        0 <= i <= m <= s.len(),
        forall|k: int| i <= k < m ==> is_digit(#[trigger] s[k]),
        m == s.len() || !is_digit(s[m]),
    ensures
        digit_run_end(s, i) == m,
    decreases m - i,
{
    if i < m {
        lemma_digit_run_end(s, i + 1, m);
    }
}

/// Parsing inverts printing: a decimal image of `n < 10^7` embedded at `i`,
/// followed by a non-digit or the end of the string, parses back to `n`.
pub proof fn lemma_parse_u_inverts(s: Seq<u8>, i: int, n: nat)
    requires
        0 <= i,
        i + spec_dec(n).len() <= s.len(),
        s.subrange(i, i + spec_dec(n).len() as int) == spec_dec(n),
        i + spec_dec(n).len() == s.len() || !is_digit(s[i + spec_dec(n).len()]),
        n < 10000000,
    ensures
        spec_parse_u(s, i) == Some((n as int, i + spec_dec(n).len())),
{
    let l = spec_dec(n).len() as int;
    lemma_dec_shape(n);
    lemma_ten_to_7();
    lemma_dec_len(n, 7);
    assert forall|k: int| i <= k < i + l implies is_digit(#[trigger] s[k]) by {
        assert(s[k] == s.subrange(i, i + l)[k - i]);
    }
    lemma_digit_run_end(s, i, i + l);
    assert(s[i] == s.subrange(i, i + l)[0]);
    assert(s[i] == spec_dec(n)[0]);
    lemma_digits_val_dec(n);
    assert(s.subrange(i, i + l) =~= spec_dec(n));
}

/// Parsing inverts printing for whole keys.
pub proof fn lemma_parse_key_inverts(x: nat, y: nat)
    requires
        x < 10000000,
        y < 10000000,
    ensures
        spec_parse_key(key_bytes(x, y)) == Some((x as int, y as int)),
{
    let s = key_bytes(x, y);
    let lx = spec_dec(x).len() as int;
    let ly = spec_dec(y).len() as int;
    assert(s.subrange(0, lx) =~= spec_dec(x));
    assert(s[lx] == SEP);
    lemma_parse_u_inverts(s, 0, x);
    assert(s.subrange(lx + 1, lx + 1 + ly) =~= spec_dec(y));
    lemma_parse_u_inverts(s, lx + 1, y);
}

/// Appends the decimal image of `n`.
pub fn push_dec(out: &mut Vec<u8>, n: usize)
    ensures
        final(out)@ == old(out)@ + spec_dec(n as nat),
    decreases n,
{
    if n < 10 {
        out.push(48 + n as u8);
        assert(out@ =~= old(out)@ + spec_dec(n as nat));
    } else {
        push_dec(out, n / 10);
        out.push(48 + (n % 10) as u8);
        assert(out@ =~= old(out)@ + spec_dec(n as nat));
    }
}

/// Appends the storage key of `(x, y)`.
pub fn push_key(out: &mut Vec<u8>, x: usize, y: usize)
    ensures
        final(out)@ == old(out)@ + key_bytes(x as nat, y as nat),
{
    push_dec(out, x);
    out.push(SEP);
    push_dec(out, y);
    assert(out@ =~= old(out)@ + key_bytes(x as nat, y as nat));
}

/// Reads a decimal number at position `i` of `s`.
pub fn parse_u(s: &[u8], i: usize) -> (r: Option<(usize, usize)>)
    requires
        i <= s@.len(),
    ensures
        match r {
            Some((v, j)) => spec_parse_u(s@, i as int) == Some((v as int, j as int)) && i < j
                <= s@.len() && v < 10000000,
            None => spec_parse_u(s@, i as int) is None,
        },
{
    let ghost gs = s@;
    let len = s.len();
    let mut j = i;
    while j < len && s[j] >= 48 && s[j] <= 57
        invariant
            i <= j <= len,
            len == gs.len(),
            gs == s@,
            forall|k: int| i <= k < j ==> is_digit(#[trigger] gs[k]),
            digit_run_end(gs, i as int) == digit_run_end(gs, j as int),
        decreases len - j,
    {
        j = j + 1;
    }
    assert(digit_run_end(gs, j as int) == j);
    if j == i || j - i > 7 || (s[i] == 48 && j > i + 1) {
        return None;
    }
    let mut v: usize = 0;
    let mut k = i;
    while k < j
        invariant
            i <= k <= j <= len,
            j - i <= 7,
            len == gs.len(),
            gs == s@,
            forall|m: int| i <= m < j ==> is_digit(#[trigger] gs[m]),
            v == digits_val(gs.subrange(i as int, k as int)),
            v < ten_to((k - i) as nat),
        decreases j - k,
    {
        let d = s[k];
        proof {
            assert(gs.subrange(i as int, k + 1).drop_last() =~= gs.subrange(i as int, k as int));
            lemma_ten_to_mono((k - i) as nat, 7);
            lemma_ten_to_7();
        }
        v = v * 10 + (d - 48) as usize;
        k = k + 1;
    }
    proof {
        lemma_ten_to_mono((j - i) as nat, 7);
        lemma_ten_to_7();
    }
    Some((v, j))
}

/// Ten to the `n`-th power.
pub open spec fn ten_to(n: nat) -> int
    decreases n,
{
    if n == 0 {
        1
    } else {
        10 * ten_to((n - 1) as nat)
    }
}

pub proof fn lemma_ten_to_7()
    ensures
        ten_to(7) == 10000000,
        ten_to(1) == 10,
{
    reveal_with_fuel(ten_to, 8);
}

pub proof fn lemma_ten_to_mono(a: nat, b: nat)
    requires
        a <= b,
    ensures
        1 <= ten_to(a) <= ten_to(b),
    decreases b,
{
    if a < b {
        lemma_ten_to_mono(a, (b - 1) as nat);
    } else if a > 0 {
        lemma_ten_to_mono((a - 1) as nat, (b - 1) as nat);
    }
}

/// The value of a digit string is bounded by ten to its width.
pub proof fn lemma_digits_val_bound(s: Seq<u8>)
    requires
        forall|k: int| 0 <= k < s.len() ==> is_digit(#[trigger] s[k]),
    ensures
        0 <= digits_val(s) < ten_to(s.len()),
    decreases s.len(),
{
    if s.len() > 0 {
        lemma_digits_val_bound(s.drop_last());
    }
}

/// Reads a whole byte string as a tile key.
pub fn parse_key(s: &[u8]) -> (r: Option<(usize, usize)>)
    ensures
        match r {
            Some((x, y)) => spec_parse_key(s@) == Some((x as int, y as int)),
            None => spec_parse_key(s@) is None,
        },
{
    match parse_u(s, 0) {
        Some((x, j)) => {
            if j < s.len() && s[j] == SEP {
                match parse_u(s, j + 1) {
                    Some((y, k)) => {
                        if k == s.len() {
                            Some((x, y))
                        } else {
                            None
                        }
                    },
                    None => None,
                }
            } else {
                None
            }
        },
        None => None,
    }
}

/// Relies on `String::from_utf8`: a vector of ASCII bytes decodes to the
/// string with exactly those characters.
#[verifier::external_body]
pub fn ascii_to_string(v: Vec<u8>) -> (r: String)
    requires
        forall|i: int| 0 <= i < v@.len() ==> v@[i] < 128,
    ensures
        r@.len() == v@.len(),
        forall|i: int| 0 <= i < v@.len() ==> r@[i] == v@[i] as char,
{
    match String::from_utf8(v) {
        Ok(s) => s,
        Err(_) => String::new(),
    }
}

/// Every byte of a key is ASCII.
pub proof fn lemma_key_bytes_ascii(x: nat, y: nat)
    ensures
        forall|i: int| 0 <= i < key_bytes(x, y).len() ==> #[trigger] key_bytes(x, y)[i] < 128,
{
    lemma_dec_shape(x);
    lemma_dec_shape(y);
}

/// The characters of an ASCII byte string.
pub open spec fn byte_chars(s: Seq<u8>) -> Seq<char> {
    Seq::new(s.len(), |i: int| s[i] as char)
}

/// The canonical storage key of `(x, y)`, as characters.
pub open spec fn key_chars(x: nat, y: nat) -> Seq<char> {
    byte_chars(key_bytes(x, y))
}

/// The storage key of the coordinate `(x, y)` as a string.
pub fn coord_key_string(x: usize, y: usize) -> (s: String)
    ensures
        s@ == key_chars(x as nat, y as nat),
{
    let mut out: Vec<u8> = Vec::new();
    push_key(&mut out, x, y);
    proof {
        lemma_key_bytes_ascii(x as nat, y as nat);
    }
    let s = ascii_to_string(out);
    proof {
        assert(s@ =~= key_chars(x as nat, y as nat));
    }
    s
}

} // verus!
