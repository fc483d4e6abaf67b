//! Verified helpers over byte strings: hex and decimal number parsing,
//! equality and lexicographic order, whitespace trimming and splitting.
//! The memory-map listing and the textual locator grammar are parsed with
//! these.

use vstd::prelude::*;
use vstd::string::StrSliceExecFns;

verus! {

/// Value of one hex digit, or `None` for a non-digit.
pub open spec fn hex_digit(c: u8) -> Option<u8> {
    if 0x30u8 <= c <= 0x39u8 {
        Some((c - 0x30u8) as u8)
    } else if 0x61u8 <= c <= 0x66u8 {
        Some((c - 0x61u8 + 10) as u8)
    } else if 0x41u8 <= c <= 0x46u8 {
        Some((c - 0x41u8 + 10) as u8)
    } else {
        None
    }
}

/// Value of one decimal digit, or `None` for a non-digit.
pub open spec fn dec_digit(c: u8) -> Option<u8> {
    if 0x30u8 <= c <= 0x39u8 {
        Some((c - 0x30u8) as u8)
    } else {
        None
    }
}

/// The number denoted by a whole byte string in base 16; `None` when the
/// string is empty or holds a non-digit.
pub open spec fn spec_hex_value(s: Seq<u8>) -> Option<nat>
    decreases s.len(),
{
    if s.len() == 0 {
        None
    } else if s.len() == 1 {
        match hex_digit(s[0]) {
            Some(d) => Some(d as nat),
            None => None,
        }
    } else {
        match (spec_hex_value(s.drop_last()), hex_digit(s.last())) {
            (Some(h), Some(d)) => Some((16 * h + d) as nat),
            _ => None,
        }
    }
}

/// The number denoted by a whole byte string in base 10; `None` when the
/// string is empty or holds a non-digit.
pub open spec fn spec_dec_value(s: Seq<u8>) -> Option<nat>
    decreases s.len(),
{
    if s.len() == 0 {
        None
    } else if s.len() == 1 {
        match dec_digit(s[0]) {
            Some(d) => Some(d as nat),
            None => None,
        }
    } else {
        match (spec_dec_value(s.drop_last()), dec_digit(s.last())) {
            (Some(h), Some(d)) => Some((10 * h + d) as nat),
            _ => None,
        }
    }
}

proof fn lemma_hex_take_step(s: Seq<u8>, j: int)
    requires
        0 <= j < s.len(),
    ensures
        spec_hex_value(s.take(j + 1)) == (if j == 0 {
            match hex_digit(s[0]) {
                Some(d) => Some(d as nat),
                None => None::<nat>,
            }
        } else {
            match (spec_hex_value(s.take(j)), hex_digit(s[j])) {
                (Some(h), Some(d)) => Some((16 * h + d) as nat),
                _ => None::<nat>,
            }
        }),
{
    let t = s.take(j + 1);
    assert(t.drop_last() =~= s.take(j));
    assert(t.last() == s[j]);
}

proof fn lemma_dec_take_step(s: Seq<u8>, j: int)
    requires
        0 <= j < s.len(),
    ensures
        spec_dec_value(s.take(j + 1)) == (if j == 0 {
            match dec_digit(s[0]) {
                Some(d) => Some(d as nat),
                None => None::<nat>,
            }
        } else {
            match (spec_dec_value(s.take(j)), dec_digit(s[j])) {
                (Some(h), Some(d)) => Some((10 * h + d) as nat),
                _ => None::<nat>,
            }
        }),
{
    let t = s.take(j + 1);
    assert(t.drop_last() =~= s.take(j));
    assert(t.last() == s[j]);
}

/// A longer all-digit string never denotes a smaller number.
proof fn lemma_hex_prefix_le(s: Seq<u8>, j: int)
    requires
        0 <= j <= s.len(),
        spec_hex_value(s) is Some,
        spec_hex_value(s.take(j)) is Some,
    ensures
        spec_hex_value(s.take(j)).unwrap() <= spec_hex_value(s).unwrap(),
    decreases s.len() - j,
{
    if j == s.len() {
        assert(s.take(j) =~= s);
    } else {
        lemma_hex_take_step(s, j);
        if j > 0 {
            assert(spec_hex_value(s.take(j + 1)) is Some ==> spec_hex_value(s.take(j + 1)).unwrap()
                >= spec_hex_value(s.take(j)).unwrap());
        }
        if spec_hex_value(s.take(j + 1)) is None {
            lemma_hex_some_all_prefixes(s, j + 1);
            assert(false);
        }
        lemma_hex_prefix_le(s, j + 1);
    }
}

/// When the whole string denotes a number, so does every nonempty prefix.
proof fn lemma_hex_some_all_prefixes(s: Seq<u8>, j: int)
    requires
        0 < j <= s.len(),
        spec_hex_value(s) is Some,
    ensures
        spec_hex_value(s.take(j)) is Some,
    decreases s.len(),
{
    if j == s.len() {
        assert(s.take(j) =~= s);
    } else {
        let t = s.drop_last();
        assert(spec_hex_value(t) is Some);
        assert(t.take(j) =~= s.take(j));
        lemma_hex_some_all_prefixes(t, j);
    }
}

proof fn lemma_dec_prefix_le(s: Seq<u8>, j: int)
    requires
        0 <= j <= s.len(),
        spec_dec_value(s) is Some,
        spec_dec_value(s.take(j)) is Some,
    ensures
        spec_dec_value(s.take(j)).unwrap() <= spec_dec_value(s).unwrap(),
    decreases s.len() - j,
{
    if j == s.len() {
        assert(s.take(j) =~= s);
    } else {
        lemma_dec_take_step(s, j);
        if spec_dec_value(s.take(j + 1)) is None {
            lemma_dec_some_all_prefixes(s, j + 1);
            assert(false);
        }
        lemma_dec_prefix_le(s, j + 1);
    }
}

proof fn lemma_dec_some_all_prefixes(s: Seq<u8>, j: int)
    requires
        0 < j <= s.len(),
        spec_dec_value(s) is Some,
    ensures
        spec_dec_value(s.take(j)) is Some,
    decreases s.len(),
{
    if j == s.len() {
        assert(s.take(j) =~= s);
    } else {
        let t = s.drop_last();
        assert(t.take(j) =~= s.take(j));
        lemma_dec_some_all_prefixes(t, j);
    }
}

/// Parses a whole byte string as a base-16 number that fits in `usize`.
/// `None` when the string is empty, holds a non-digit, or overflows.
pub fn parse_hex_usize(s: &[u8]) -> (r: Option<usize>)
    ensures
        match r {
            Some(v) => spec_hex_value(s@) == Some(v as nat),
            None => spec_hex_value(s@) is None || spec_hex_value(s@).unwrap() > usize::MAX,
        },
{
    let n = s.len();
    if n == 0 {
        return None;
    }
    let mut acc: u128 = 0;
    let mut i: usize = 0;
    while i < n
        invariant
            0 <= i <= n,
            n == s@.len(),
            i > 0 ==> spec_hex_value(s@.take(i as int)) == Some(acc as nat),
            i == 0 ==> acc == 0,
            acc <= usize::MAX,
        decreases n - i,
    {
        let c = s[i];
        let d: u8 = if 0x30u8 <= c && c <= 0x39u8 {
            c - 0x30u8
        } else if 0x61u8 <= c && c <= 0x66u8 {
            c - 0x61u8 + 10
        } else if 0x41u8 <= c && c <= 0x46u8 {
            c - 0x41u8 + 10
        } else {
            proof {
                if spec_hex_value(s@) is Some {
                    lemma_hex_some_all_prefixes(s@, i + 1);
                    lemma_hex_take_step(s@, i as int);
                    assert(false);
                }
            }
            return None;
        };
        assert(hex_digit(c) == Some(d));
        let next: u128 = acc * 16 + d as u128;
        proof {
            lemma_hex_take_step(s@, i as int);
        }
        if next > usize::MAX as u128 {
            proof {
                if spec_hex_value(s@) matches Some(v) && v <= usize::MAX {
                    lemma_hex_some_all_prefixes(s@, i + 1);
                    lemma_hex_prefix_le(s@, i + 1);
                    assert(false);
                }
            }
            return None;
        }
        acc = next;
        i = i + 1;
    }
    assert(s@.take(n as int) =~= s@);
    Some(acc as usize)
}

/// Parses a whole byte string as a base-10 number that fits in `u64`.
/// `None` when the string is empty, holds a non-digit, or overflows.
pub fn parse_dec_u64(s: &[u8]) -> (r: Option<u64>)
    ensures
        match r {
            Some(v) => spec_dec_value(s@) == Some(v as nat),
            None => spec_dec_value(s@) is None || spec_dec_value(s@).unwrap() > u64::MAX,
        },
{
    let n = s.len();
    if n == 0 {
        return None;
    }
    let mut acc: u128 = 0;
    let mut i: usize = 0;
    while i < n
        invariant
            0 <= i <= n,
            n == s@.len(),
            i > 0 ==> spec_dec_value(s@.take(i as int)) == Some(acc as nat),
            i == 0 ==> acc == 0,
            acc <= u64::MAX,
        decreases n - i,
    {
        let c = s[i];
        if !(0x30u8 <= c && c <= 0x39u8) {
            proof {
                if spec_dec_value(s@) is Some {
                    lemma_dec_some_all_prefixes(s@, i + 1);
                    lemma_dec_take_step(s@, i as int);
                    assert(false);
                }
            }
            return None;
        }
        let d: u8 = c - 0x30u8;
        let next: u128 = acc * 10 + d as u128;
        proof {
            lemma_dec_take_step(s@, i as int);
        }
        if next > u64::MAX as u128 {
            proof {
                if spec_dec_value(s@) matches Some(v) && v <= u64::MAX {
                    lemma_dec_some_all_prefixes(s@, i + 1);
                    lemma_dec_prefix_le(s@, i + 1);
                    assert(false);
                }
            }
            return None;
        }
        acc = next;
        i = i + 1;
    }
    assert(s@.take(n as int) =~= s@);
    Some(acc as u64)
}


/// A hex field's value when it denotes a number that fits in `usize`.
pub open spec fn spec_hex_usize(s: Seq<u8>) -> Option<usize> {
    match spec_hex_value(s) {
        Some(v) => if v <= usize::MAX {
            Some(v as usize)
        } else {
            None
        },
        None => None,
    }
}

/// A decimal field's value when it fits in `usize`.
pub open spec fn spec_dec_usize(s: Seq<u8>) -> Option<usize> {
    match spec_dec_value(s) {
        Some(v) => if v <= usize::MAX {
            Some(v as usize)
        } else {
            None
        },
        None => None,
    }
}

/// True iff the two byte strings hold the same bytes.
pub fn bytes_eq(a: &[u8], b: &[u8]) -> (r: bool)
    ensures
        r == (a@ == b@),
{
    let n = a.len();
    if n != b.len() {
        assert(a@ != b@);
        return false;
    }
    let mut i: usize = 0;
    while i < n
        invariant
            0 <= i <= n,
            n == a@.len() == b@.len(),
            forall|j: int| 0 <= j < i ==> a@[j] == b@[j],
        decreases n - i,
    {
        if a[i] != b[i] {
            return false;
        }
        i = i + 1;
    }
    assert(a@ =~= b@);
    true
}

/// Strict lexicographic byte order; a proper prefix comes first.
pub open spec fn spec_lex_lt(a: Seq<u8>, b: Seq<u8>) -> bool
    decreases a.len(),
{
    if b.len() == 0 {
        false
    } else if a.len() == 0 {
        true
    } else if a[0] < b[0] {
        true
    } else if a[0] > b[0] {
        false
    } else {
        spec_lex_lt(a.skip(1), b.skip(1))
    }
}

/// Compares two byte strings lexicographically.
pub fn lex_lt(a: &[u8], b: &[u8]) -> (r: bool)
    ensures
        r == spec_lex_lt(a@, b@),
{
    let na = a.len();
    let nb = b.len();
    let mut i: usize = 0;
    proof {
        assert(a@.skip(0) =~= a@);
        assert(b@.skip(0) =~= b@);
    }
    loop
        invariant
            0 <= i <= na,
            i <= nb,
            na == a@.len(),
            nb == b@.len(),
            spec_lex_lt(a@, b@) == spec_lex_lt(a@.skip(i as int), b@.skip(i as int)),
        decreases na - i,
    {
        if i == na {
            assert(a@.skip(i as int) =~= Seq::<u8>::empty());
            return i < nb;
        }
        if i == nb {
            assert(b@.skip(i as int) =~= Seq::<u8>::empty());
            return false;
        }
        let ca = a[i];
        let cb = b[i];
        if ca < cb {
            return true;
        }
        if ca > cb {
            return false;
        }
        proof {
            assert(a@.skip(i as int).skip(1) =~= a@.skip(i as int + 1));
            assert(b@.skip(i as int).skip(1) =~= b@.skip(i as int + 1));
        }
        i = i + 1;
    }
}

/// ASCII whitespace, the set `str::trim` removes from ASCII text.
pub open spec fn is_space(c: u8) -> bool {
    c == 0x20u8 || c == 0x09u8 || c == 0x0au8 || c == 0x0du8 || c == 0x0b || c == 0x0c
}

fn is_space_exec(c: u8) -> (r: bool)
    ensures
        r == is_space(c),
{
    c == 0x20u8 || c == 0x09u8 || c == 0x0au8 || c == 0x0du8 || c == 0x0b || c == 0x0c
}

/// The byte string with leading and trailing ASCII whitespace removed.
pub open spec fn spec_trim(s: Seq<u8>) -> Seq<u8>
    decreases s.len(),
{
    if s.len() == 0 {
        s
    } else if is_space(s[0]) {
        spec_trim(s.skip(1))
    } else if is_space(s.last()) {
        spec_trim(s.drop_last())
    } else {
        s
    }
}

/// Trims leading and trailing ASCII whitespace.
pub fn trim_spaces(s: &[u8]) -> (r: Vec<u8>)
    ensures
        r@ == spec_trim(s@),
{
    let n = s.len();
    let mut lo: usize = 0;
    proof {
        assert(s@.skip(0) =~= s@);
    }
    while lo < n && is_space_exec(s[lo])
        invariant
            0 <= lo <= n,
            n == s@.len(),
            spec_trim(s@) == spec_trim(s@.skip(lo as int)),
            forall|j: int| 0 <= j < lo ==> is_space(s@[j]),
        decreases n - lo,
    {
        proof {
            assert(s@.skip(lo as int).skip(1) =~= s@.skip(lo as int + 1));
        }
        lo = lo + 1;
    }
    let mut hi: usize = n;
    proof {
        assert(s@.subrange(lo as int, n as int) =~= s@.skip(lo as int));
    }
    while hi > lo && is_space_exec(s[hi - 1])
        invariant
            0 <= lo <= hi <= n,
            n == s@.len(),
            lo < n ==> !is_space(s@[lo as int]),
            spec_trim(s@) == spec_trim(s@.subrange(lo as int, hi as int)),
        decreases hi,
    {
        proof {
            let t = s@.subrange(lo as int, hi as int);
            assert(t.len() > 0);
            assert(t[0] == s@[lo as int]);
            assert(!is_space(t[0]));
            assert(t.last() == s@[hi as int - 1]);
            assert(is_space(t.last()));
            assert(spec_trim(t) == spec_trim(t.drop_last()));
            assert(t.drop_last() =~= s@.subrange(lo as int, hi as int - 1));
        }
        hi = hi - 1;
    }
    let mut out: Vec<u8> = Vec::new();
    let mut i: usize = lo;
    while i < hi
        invariant
            lo <= i <= hi <= n,
            n == s@.len(),
            out@ =~= s@.subrange(lo as int, i as int),
        decreases hi - i,
    {
        out.push(s[i]);
        i = i + 1;
    }
    proof {
        let t = s@.subrange(lo as int, hi as int);
        if t.len() > 0 {
            assert(!is_space(t[0]));
            assert(!is_space(t.last()));
        }
        assert(spec_trim(t) == t);
        assert(out@ =~= t);
    }
    out
}

/// True iff `s` begins with `prefix`.
pub open spec fn spec_starts_with(s: Seq<u8>, prefix: Seq<u8>) -> bool {
    s.len() >= prefix.len() && s.take(prefix.len() as int) == prefix
}

/// Tests whether a byte string begins with the given prefix.
pub fn starts_with(s: &[u8], prefix: &[u8]) -> (r: bool)
    ensures
        r == spec_starts_with(s@, prefix@),
{
    let np = prefix.len();
    if s.len() < np {
        return false;
    }
    let mut i: usize = 0;
    while i < np
        invariant
            0 <= i <= np,
            np == prefix@.len(),
            np <= s@.len(),
            forall|j: int| 0 <= j < i ==> s@[j] == prefix@[j],
        decreases np - i,
    {
        if s[i] != prefix[i] {
            assert(s@.take(np as int)[i as int] != prefix@[i as int]);
            return false;
        }
        i = i + 1;
    }
    assert(s@.take(np as int) =~= prefix@);
    true
}

/// Compares two strings character by character.
pub fn eq_str(a: &str, b: &str) -> (r: bool)
    ensures
        r == (a@ == b@),
{
    let na = a.unicode_len();
    let nb = b.unicode_len();
    if na != nb {
        assert(a@ != b@);
        return false;
    }
    let mut i: usize = 0;
    while i < na
        invariant
            0 <= i <= na,
            na == a@.len(),
            na == b@.len(),
            forall|j: int| 0 <= j < i ==> a@[j] == b@[j],
        decreases na - i,
    {
        if a.get_char(i) != b.get_char(i) {
            return false;
        }
        i = i + 1;
    }
    assert(a@ =~= b@);
    true
}

/// Index of the first occurrence of `d` in `s`, or the length of `s`.
pub open spec fn spec_find_idx(s: Seq<u8>, d: u8) -> int
    decreases s.len(),
{
    if s.len() == 0 {
        0
    } else if s[0] == d {
        0
    } else {
        1 + spec_find_idx(s.skip(1), d)
    }
}

/// `spec_find_idx` is the least index holding `d`, or the length.
pub proof fn lemma_find_idx(s: Seq<u8>, d: u8)
    ensures
        0 <= spec_find_idx(s, d) <= s.len(),
        spec_find_idx(s, d) < s.len() ==> s[spec_find_idx(s, d)] == d,
        forall|i: int| 0 <= i < spec_find_idx(s, d) ==> s[i] != d,
    decreases s.len(),
{
    if s.len() > 0 && s[0] != d {
        lemma_find_idx(s.skip(1), d);
        assert forall|i: int| 0 <= i < spec_find_idx(s, d) implies s[i] != d by {
            if i > 0 {
                assert(s.skip(1)[i - 1] == s[i]);
            }
        }
    }
}

/// A witness to "no `d` before `k`, `d` at `k` or absent" pins the index.
pub proof fn lemma_find_idx_witness(s: Seq<u8>, d: u8, k: int)
    requires
        0 <= k <= s.len(),
        forall|i: int| 0 <= i < k ==> s[i] != d,
        k < s.len() ==> s[k] == d,
    ensures
        spec_find_idx(s, d) == k,
    decreases s.len(),
{
    if s.len() == 0 {
    } else if s[0] == d {
    } else {
        assert(k > 0);
        let t = s.skip(1);
        assert forall|i: int| 0 <= i < k - 1 implies t[i] != d by {
            assert(t[i] == s[i + 1]);
        }
        assert(k - 1 < t.len() ==> t[k - 1] == s[k]);
        lemma_find_idx_witness(t, d, k - 1);
    }
}

/// Finds the first occurrence of `d` in `s` at or after `from`.
pub fn find_from(s: &[u8], from: usize, d: u8) -> (r: usize)
    requires
        from <= s@.len(),
    ensures
        from <= r <= s@.len(),
        r - from == spec_find_idx(s@.skip(from as int), d),
        forall|i: int| from <= i < r ==> s@[i] != d,
        r < s@.len() ==> s@[r as int] == d,
{
    let n = s.len();
    let mut i: usize = from;
    while i < n
        invariant
            from <= i <= n,
            n == s@.len(),
            forall|j: int| from <= j < i ==> s@[j] != d,
        decreases n - i,
    {
        if s[i] == d {
            proof {
                let t = s@.skip(from as int);
                assert forall|j: int| 0 <= j < i - from implies t[j] != d by {
                    assert(t[j] == s@[j + from]);
                }
                assert(t[i - from] == s@[i as int]);
                lemma_find_idx_witness(t, d, i - from);
            }
            return i;
        }
        i = i + 1;
    }
    proof {
        let t = s@.skip(from as int);
        assert forall|j: int| 0 <= j < n - from implies t[j] != d by {
            assert(t[j] == s@[j + from]);
        }
        lemma_find_idx_witness(t, d, n - from);
    }
    n
}

/// All parts of `s` split at every occurrence of `d`; the separators are
/// dropped and empty parts are kept, as `str::split` does.
pub open spec fn spec_split(s: Seq<u8>, d: u8) -> Seq<Seq<u8>>
    decreases s.len(),
{
    let i = spec_find_idx(s, d);
    if 0 <= i < s.len() {
        seq![s.take(i)] + spec_split(s.skip(i + 1), d)
    } else {
        seq![s]
    }
}

/// The parts of `s` split at the first `n - 1` occurrences of `d`; the
/// last part keeps the rest, as `str::splitn` does.
pub open spec fn spec_splitn(s: Seq<u8>, d: u8, n: nat) -> Seq<Seq<u8>>
    decreases s.len(),
{
    if n <= 1 {
        seq![s]
    } else {
        let i = spec_find_idx(s, d);
        if 0 <= i < s.len() {
            seq![s.take(i)] + spec_splitn(s.skip(i + 1), d, (n - 1) as nat)
        } else {
            seq![s]
        }
    }
}

/// Index of the first occurrence of the two-byte sequence `a b` in
/// `s`, or the length of `s`.
pub open spec fn spec_find_pair_idx(s: Seq<u8>, a: u8, b: u8) -> int
    decreases s.len(),
{
    if s.len() == 0 {
        0
    } else if s.len() >= 2 && s[0] == a && s[1] == b {
        0
    } else {
        1 + spec_find_pair_idx(s.skip(1), a, b)
    }
}

/// A witness to "no pair before `k`, pair at `k` or absent" pins the
/// index.
pub proof fn lemma_find_pair_idx_witness(s: Seq<u8>, a: u8, b: u8, k: int)
    requires
        0 <= k <= s.len(),
        forall|i: int| 0 <= i < k ==> !(i + 1 < s.len() && #[trigger] s[i] == a && s[i + 1] == b),
        k < s.len() ==> k + 1 < s.len() && s[k] == a && s[k + 1] == b,
    ensures
        spec_find_pair_idx(s, a, b) == k,
    decreases s.len(),
{
    if s.len() == 0 {
    } else if s.len() >= 2 && s[0] == a && s[1] == b {
        assert(k == 0);
    } else {
        assert(k > 0 || k == 0 && s.len() >= 1);
        if k == 0 {
            assert(false);
        }
        let t = s.skip(1);
        assert forall|i: int|
            0 <= i < k - 1 implies !(i + 1 < t.len() && #[trigger] t[i] == a && t[i + 1] == b) by {
            assert(t[i] == s[i + 1]);
            assert(i + 2 < s.len() ==> t[i + 1] == s[i + 2]);
        }
        assert(k - 1 < t.len() ==> k < s.len());
        assert(k - 1 < t.len() ==> (k - 1) + 1 < t.len() && t[k - 1] == a && t[k - 1 + 1] == b);
        lemma_find_pair_idx_witness(t, a, b, k - 1);
    }
}

/// Finds the first occurrence of the pair `a b` at or after `from`.
pub fn find_pair_from(s: &[u8], from: usize, a: u8, b: u8) -> (r: usize)
    requires
        from <= s@.len(),
    ensures
        from <= r <= s@.len(),
        r - from == spec_find_pair_idx(s@.skip(from as int), a, b),
        r < s@.len() ==> r + 1 < s@.len() && s@[r as int] == a && s@[r as int + 1] == b,
{
    let n = s.len();
    let mut i: usize = from;
    while i < n
        invariant
            from <= i <= n,
            n == s@.len(),
            forall|j: int|
                from <= j < i ==> !(j + 1 < s@.len() && #[trigger] s@[j] == a && s@[j + 1] == b),
        decreases n - i,
    {
        if i + 1 < n && s[i] == a && s[i + 1] == b {
            proof {
                let t = s@.skip(from as int);
                assert forall|j: int|
                    0 <= j < i - from implies !(j + 1 < t.len() && #[trigger] t[j] == a && t[j + 1]
                        == b) by {
                    assert(t[j] == s@[j + from]);
                    assert(j + 1 < t.len() ==> t[j + 1] == s@[j + from + 1]);
                }
                assert(t[i - from] == s@[i as int]);
                assert(t[i - from + 1] == s@[i as int + 1]);
                lemma_find_pair_idx_witness(t, a, b, i - from);
            }
            return i;
        }
        i = i + 1;
    }
    proof {
        let t = s@.skip(from as int);
        assert forall|j: int|
            0 <= j < n - from implies !(j + 1 < t.len() && #[trigger] t[j] == a && t[j + 1] == b)
            by {
            assert(t[j] == s@[j + from]);
            assert(j + 1 < t.len() ==> t[j + 1] == s@[j + from + 1]);
        }
        lemma_find_pair_idx_witness(t, a, b, n - from);
    }
    n
}

/// The parts of `s` split at every occurrence of the two-byte sequence
/// `a b`, separators dropped, empty parts kept.
pub open spec fn spec_split_pair(s: Seq<u8>, a: u8, b: u8) -> Seq<Seq<u8>>
    decreases s.len(),
{
    let i = spec_find_pair_idx(s, a, b);
    if 0 <= i && i + 2 <= s.len() {
        seq![s.take(i)] + spec_split_pair(s.skip(i + 2), a, b)
    } else {
        seq![s]
    }
}

/// Splits at every occurrence of the two-byte sequence `a b`.
pub fn split_pair(s: &[u8], a: u8, b: u8) -> (r: Vec<Vec<u8>>)
    ensures
        r@.map_values(|p: Vec<u8>| p@) == spec_split_pair(s@, a, b),
{
    let n = s.len();
    let mut out: Vec<Vec<u8>> = Vec::new();
    let mut pos: usize = 0;
    proof {
        assert(s@.skip(0) =~= s@);
    }
    loop
        invariant
            0 <= pos <= n,
            n == s@.len(),
            spec_split_pair(s@, a, b) == out@.map_values(|p: Vec<u8>| p@) + spec_split_pair(
                s@.skip(pos as int),
                a,
                b,
            ),
        decreases n - pos,
    {
        let k = find_pair_from(s, pos, a, b);
        let mut part: Vec<u8> = Vec::new();
        let mut i: usize = pos;
        while i < k
            invariant
                pos <= i <= k <= n,
                n == s@.len(),
                part@ =~= s@.subrange(pos as int, i as int),
            decreases k - i,
        {
            part.push(s[i]);
            i = i + 1;
        }
        proof {
            assert(part@ =~= s@.skip(pos as int).take(k - pos));
        }
        if k == n {
            proof {
                assert(spec_split_pair(s@.skip(pos as int), a, b) =~= seq![s@.skip(pos as int)]);
                assert(part@ =~= s@.skip(pos as int));
            }
            out.push(part);
            proof {
                assert(out@.map_values(|p: Vec<u8>| p@) =~= spec_split_pair(s@, a, b));
            }
            return out;
        }
        let ghost old_out = out@;
        out.push(part);
        proof {
            let rest = s@.skip(pos as int);
            assert(spec_find_pair_idx(rest, a, b) == k - pos);
            assert(k - pos + 2 <= rest.len());
            assert(spec_split_pair(rest, a, b) == seq![rest.take(k - pos)] + spec_split_pair(
                rest.skip(k - pos + 2),
                a,
                b,
            ));
            assert(rest.skip(k - pos + 2) =~= s@.skip(k + 2));
            assert(out@.map_values(|p: Vec<u8>| p@) =~= old_out.map_values(|p: Vec<u8>| p@)
                + seq![rest.take(k - pos)]);
        }
        pos = k + 2;
    }
}

/// Index of the first ASCII whitespace byte in `s`, or the length.
pub open spec fn spec_find_space_idx(s: Seq<u8>) -> int
    decreases s.len(),
{
    if s.len() == 0 {
        0
    } else if is_space(s[0]) {
        0
    } else {
        1 + spec_find_space_idx(s.skip(1))
    }
}

/// A witness to "no whitespace before `k`, whitespace at `k` or
/// absent" pins the index.
pub proof fn lemma_find_space_idx_witness(s: Seq<u8>, k: int)
    requires
        0 <= k <= s.len(),
        forall|i: int| 0 <= i < k ==> !is_space(s[i]),
        k < s.len() ==> is_space(s[k]),
    ensures
        spec_find_space_idx(s) == k,
    decreases s.len(),
{
    if s.len() == 0 {
    } else if is_space(s[0]) {
    } else {
        let t = s.skip(1);
        assert forall|i: int| 0 <= i < k - 1 implies !is_space(t[i]) by {
            assert(t[i] == s[i + 1]);
        }
        assert(k - 1 < t.len() ==> is_space(t[k - 1]));
        lemma_find_space_idx_witness(t, k - 1);
    }
}

/// Finds the first ASCII whitespace byte at or after `from`.
pub fn find_space_from(s: &[u8], from: usize) -> (r: usize)
    requires
        from <= s@.len(),
    ensures
        from <= r <= s@.len(),
        r - from == spec_find_space_idx(s@.skip(from as int)),
        forall|i: int| from <= i < r ==> !is_space(s@[i]),
        r < s@.len() ==> is_space(s@[r as int]),
{
    let n = s.len();
    let mut i: usize = from;
    while i < n
        invariant
            from <= i <= n,
            n == s@.len(),
            forall|j: int| from <= j < i ==> !is_space(s@[j]),
        decreases n - i,
    {
        if is_space_exec(s[i]) {
            proof {
                let t = s@.skip(from as int);
                assert forall|j: int| 0 <= j < i - from implies !is_space(t[j]) by {
                    assert(t[j] == s@[j + from]);
                }
                assert(t[i - from] == s@[i as int]);
                lemma_find_space_idx_witness(t, i - from);
            }
            return i;
        }
        i = i + 1;
    }
    proof {
        let t = s@.skip(from as int);
        assert forall|j: int| 0 <= j < n - from implies !is_space(t[j]) by {
            assert(t[j] == s@[j + from]);
        }
        lemma_find_space_idx_witness(t, n - from);
    }
    n
}

/// Splits at every occurrence of `d`.
pub fn split_all(s: &[u8], d: u8) -> (r: Vec<Vec<u8>>)
    ensures
        r@.map_values(|p: Vec<u8>| p@) == spec_split(s@, d),
{
    let n = s.len();
    let mut out: Vec<Vec<u8>> = Vec::new();
    let mut pos: usize = 0;
    proof {
        assert(s@.skip(0) =~= s@);
    }
    loop
        invariant
            0 <= pos <= n,
            n == s@.len(),
            spec_split(s@, d) == out@.map_values(|p: Vec<u8>| p@) + spec_split(
                s@.skip(pos as int),
                d,
            ),
        decreases n - pos,
    {
        let k = find_from(s, pos, d);
        let mut part: Vec<u8> = Vec::new();
        let mut i: usize = pos;
        while i < k
            invariant
                pos <= i <= k <= n,
                n == s@.len(),
                part@ =~= s@.subrange(pos as int, i as int),
            decreases k - i,
        {
            part.push(s[i]);
            i = i + 1;
        }
        proof {
            assert(part@ =~= s@.skip(pos as int).take(k - pos));
        }
        if k == n {
            proof {
                assert(spec_split(s@.skip(pos as int), d) =~= seq![s@.skip(pos as int)]);
                assert(part@ =~= s@.skip(pos as int));
            }
            out.push(part);
            proof {
                assert(out@.map_values(|p: Vec<u8>| p@) =~= spec_split(s@, d));
            }
            return out;
        }
        let ghost old_out = out@;
        out.push(part);
        proof {
            let rest = s@.skip(pos as int);
            assert(spec_split(rest, d) == seq![rest.take(k - pos)] + spec_split(
                rest.skip(k - pos + 1),
                d,
            ));
            assert(rest.skip(k - pos + 1) =~= s@.skip(k + 1));
            assert(out@.map_values(|p: Vec<u8>| p@) =~= old_out.map_values(|p: Vec<u8>| p@)
                + seq![rest.take(k - pos)]);
        }
        pos = k + 1;
    }
}

/// Splits at the first `n - 1` occurrences of `d`.
pub fn split_n(s: &[u8], d: u8, n: usize) -> (r: Vec<Vec<u8>>)
    requires
        n >= 1,
    ensures
        r@.map_values(|p: Vec<u8>| p@) == spec_splitn(s@, d, n as nat),
{
    let len = s.len();
    let mut out: Vec<Vec<u8>> = Vec::new();
    let mut pos: usize = 0;
    let mut left: usize = n;
    proof {
        assert(s@.skip(0) =~= s@);
    }
    loop
        invariant
            0 <= pos <= len,
            1 <= left <= n,
            len == s@.len(),
            spec_splitn(s@, d, n as nat) == out@.map_values(|p: Vec<u8>| p@) + spec_splitn(
                s@.skip(pos as int),
                d,
                left as nat,
            ),
        decreases left,
    {
        if left == 1 {
            let mut part: Vec<u8> = Vec::new();
            let mut i: usize = pos;
            while i < len
                invariant
                    pos <= i <= len,
                    len == s@.len(),
                    part@ =~= s@.subrange(pos as int, i as int),
                decreases len - i,
            {
                part.push(s[i]);
                i = i + 1;
            }
            proof {
                assert(part@ =~= s@.skip(pos as int));
            }
            out.push(part);
            proof {
                assert(out@.map_values(|p: Vec<u8>| p@) =~= spec_splitn(s@, d, n as nat));
            }
            return out;
        }
        let k = find_from(s, pos, d);
        let mut part: Vec<u8> = Vec::new();
        let mut i: usize = pos;
        while i < k
            invariant
                pos <= i <= k <= len,
                len == s@.len(),
                part@ =~= s@.subrange(pos as int, i as int),
            decreases k - i,
        {
            part.push(s[i]);
            i = i + 1;
        }
        proof {
            assert(part@ =~= s@.skip(pos as int).take(k - pos));
        }
        if k == len {
            proof {
                assert(spec_splitn(s@.skip(pos as int), d, left as nat) =~= seq![
                    s@.skip(pos as int),
                ]);
                assert(part@ =~= s@.skip(pos as int));
            }
            out.push(part);
            proof {
                assert(out@.map_values(|p: Vec<u8>| p@) =~= spec_splitn(s@, d, n as nat));
            }
            return out;
        }
        let ghost old_out = out@;
        out.push(part);
        proof {
            let rest = s@.skip(pos as int);
            assert(spec_splitn(rest, d, left as nat) == seq![rest.take(k - pos)] + spec_splitn(
                rest.skip(k - pos + 1),
                d,
                (left - 1) as nat,
            ));
            assert(rest.skip(k - pos + 1) =~= s@.skip(k + 1));
            assert(out@.map_values(|p: Vec<u8>| p@) =~= old_out.map_values(|p: Vec<u8>| p@)
                + seq![rest.take(k - pos)]);
        }
        pos = k + 1;
        left = left - 1;
    }
}

} // verus!
