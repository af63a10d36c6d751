use vstd::prelude::*;
use crate::ascii::is_ascii_bytes;
use crate::date_utils::is_digit;

verus! {

/// An upper-case ASCII letter folded to lower case; any other byte kept.
pub open spec fn lower(b: u8) -> u8 {
    if 65 <= b <= 90 {
        (b + 32) as u8
    } else {
        b
    }
}

/// `s` spells the lower-case word `w`, letter case ignored.
pub open spec fn eq_ignore_case(s: Seq<u8>, w: Seq<u8>) -> bool {
    s.len() == w.len() && forall|i: int| 0 <= i < s.len() ==> lower(#[trigger] s[i]) == w[i]
}

pub open spec fn inf_word() -> Seq<u8> {
    seq![105u8, 110u8, 102u8]
}

pub open spec fn infinity_word() -> Seq<u8> {
    seq![105u8, 110u8, 102u8, 105u8, 110u8, 105u8, 116u8, 121u8]
}

pub open spec fn nan_word() -> Seq<u8> {
    seq![110u8, 97u8, 110u8]
}

/// The token with one leading `+` or `-` removed, if it has one.
pub open spec fn strip_sign(s: Seq<u8>) -> Seq<u8> {
    if s.len() > 0 && (s[0] == 43 || s[0] == 45) {
        s.skip(1)
    } else {
        s
    }
}

/// The offset of the first `e` or `E` at or after `i`, or the length when
/// there is none.
pub open spec fn find_exp_from(s: Seq<u8>, i: int) -> int
    decreases s.len() - i,
{
    if i >= s.len() {
        s.len() as int
    } else if s[i] == 101 || s[i] == 69 {
        i
    } else {
        find_exp_from(s, i + 1)
    }
}

/// A mantissa: one or more digits with at most one dot among them.
pub open spec fn is_mantissa(m: Seq<u8>) -> bool {
    &&& m.len() > 0
    &&& forall|i: int| 0 <= i < m.len() ==> (is_digit(#[trigger] m[i]) || m[i] == 46)
    &&& exists|i: int| 0 <= i < m.len() && is_digit(#[trigger] m[i])
    &&& forall|i: int, j: int|
        0 <= i < m.len() && 0 <= j < m.len() && #[trigger] m[i] == 46 && #[trigger] m[j] == 46
            ==> i == j
}

/// What follows an exponent mark: an optional sign, then one or more
/// digits.
pub open spec fn is_exp_tail(t: Seq<u8>) -> bool {
    let u = strip_sign(t);
    u.len() > 0 && forall|i: int| 0 <= i < u.len() ==> is_digit(#[trigger] u[i])
}

/// A token that the usual float grammar accepts: an optional sign, then
/// `inf`, `infinity` or `nan` in any letter case, or a mantissa with an
/// optional exponent part introduced by `e` or `E`.
pub open spec fn is_float_token(s: Seq<u8>) -> bool {
    let b = strip_sign(s);
    &&& b.len() > 0
    &&& {
        ||| eq_ignore_case(b, inf_word())
        ||| eq_ignore_case(b, infinity_word())
        ||| eq_ignore_case(b, nan_word())
        ||| {
            let k = find_exp_from(b, 0);
            &&& is_mantissa(b.take(k))
            &&& (k == b.len() || is_exp_tail(b.skip(k + 1)))
        }
    }
}

proof fn lemma_find_exp_bounds(s: Seq<u8>, i: int)
    requires
        0 <= i <= s.len(),
    ensures
        i <= find_exp_from(s, i) <= s.len(),
        find_exp_from(s, i) < s.len() ==> (s[find_exp_from(s, i)] == 101 || s[find_exp_from(s, i)]
            == 69),
        forall|j: int| i <= j < find_exp_from(s, i) ==> !(s[j] == 101 || #[trigger] s[j] == 69),
    decreases s.len() - i,
{
    if i < s.len() && !(s[i] == 101 || s[i] == 69) {
        lemma_find_exp_bounds(s, i + 1);
    }
}

proof fn lemma_find_exp_at(s: Seq<u8>, i: int, k: int)
    requires
        0 <= i <= k <= s.len(),
        forall|j: int| i <= j < k ==> !(s[j] == 101 || #[trigger] s[j] == 69),
        k < s.len() ==> (s[k] == 101 || s[k] == 69),
    ensures
        find_exp_from(s, i) == k,
    decreases k - i,
{
    if i < k {
        lemma_find_exp_at(s, i + 1, k);
    }
}

fn lower_byte(b: u8) -> (r: u8)
    ensures
        r == lower(b),
{
    if 65 <= b && b <= 90 {
        b + 32
    } else {
        b
    }
}

/// Reports whether `b` spells `inf`, `infinity` or `nan`, letter case
/// ignored.
fn check_special(b: &[u8]) -> (r: bool)
    ensures
        r == (eq_ignore_case(b@, inf_word()) || eq_ignore_case(b@, infinity_word())
            || eq_ignore_case(b@, nan_word())),
{
    let n = b.len();
    if n == 3 {
        let x = lower_byte(*vstd::slice::slice_index_get(b, 0));
        let y = lower_byte(*vstd::slice::slice_index_get(b, 1));
        let z = lower_byte(*vstd::slice::slice_index_get(b, 2));
        let inf = x == 105 && y == 110 && z == 102;
        let nan = x == 110 && y == 97 && z == 110;
        assert(inf == eq_ignore_case(b@, inf_word())) by {
            if inf {
                assert forall|i: int| 0 <= i < 3 implies lower(b@[i]) == inf_word()[i] by {}
            }
        }
        assert(nan == eq_ignore_case(b@, nan_word())) by {
            if nan {
                assert forall|i: int| 0 <= i < 3 implies lower(b@[i]) == nan_word()[i] by {}
            }
        }
        inf || nan
    } else if n == 8 {
        let mut ok = true;
        let word: [u8; 8] = [105, 110, 102, 105, 110, 105, 116, 121];
        let mut i: usize = 0;
        while i < 8
            invariant
                0 <= i <= 8,
                n == 8 == b@.len(),
                word@ =~= infinity_word(),
                ok == (forall|j: int| 0 <= j < i ==> lower(#[trigger] b@[j]) == infinity_word()[j]),
            decreases 8 - i,
        {
            let c = lower_byte(*vstd::slice::slice_index_get(b, i));
            let w = word[i];
            if c != w {
                ok = false;
            }
            i += 1;
        }
        ok
    } else {
        false
    }
}

/// Finds the offset of the first exponent mark of `b`, or its length.
fn find_exp(b: &[u8]) -> (k: usize)
    ensures
        k == find_exp_from(b@, 0),
        k <= b@.len(),
{
    let n = b.len();
    let mut i: usize = 0;
    while i < n
        invariant
            0 <= i <= n == b@.len(),
            forall|j: int| 0 <= j < i ==> !(b@[j] == 101 || #[trigger] b@[j] == 69),
        decreases n - i,
    {
        let c = *vstd::slice::slice_index_get(b, i);
        if c == 101 || c == 69 {
            proof {
                lemma_find_exp_at(b@, 0, i as int);
            }
            return i;
        }
        i += 1;
    }
    proof {
        lemma_find_exp_at(b@, 0, n as int);
    }
    n
}

fn check_mantissa(m: &[u8]) -> (r: bool)
    ensures
        r == is_mantissa(m@),
{
    let n = m.len();
    if n == 0 {
        return false;
    }
    let mut has_digit = false;
    let mut seen_dot = false;
    let ghost mut dot_idx: int = 0;
    let mut j: usize = 0;
    while j < n
        invariant
            0 <= j <= n == m@.len(),
            forall|t: int| 0 <= t < j ==> (is_digit(#[trigger] m@[t]) || m@[t] == 46),
            has_digit == exists|t: int| 0 <= t < j && is_digit(#[trigger] m@[t]),
            seen_dot ==> 0 <= dot_idx < j && m@[dot_idx] == 46,
            forall|t: int| 0 <= t < j && #[trigger] m@[t] == 46 ==> seen_dot && t == dot_idx,
        decreases n - j,
    {
        let c = *vstd::slice::slice_index_get(m, j);
        if 48 <= c && c <= 57 {
            has_digit = true;
        } else if c == 46 {
            if seen_dot {
                assert(m@[dot_idx] == 46 && m@[j as int] == 46 && dot_idx != j as int);
                return false;
            }
            seen_dot = true;
            proof {
                dot_idx = j as int;
            }
        } else {
            assert(!(is_digit(m@[j as int]) || m@[j as int] == 46));
            return false;
        }
        j += 1;
    }
    has_digit
}

fn check_exp_tail(t: &[u8]) -> (r: bool)
    ensures
        r == is_exp_tail(t@),
{
    let n = t.len();
    let p: usize = if n > 0 && {
        let c = *vstd::slice::slice_index_get(t, 0);
        c == 43 || c == 45
    } {
        1
    } else {
        0
    };
    assert(strip_sign(t@) =~= t@.skip(p as int));
    if n == p {
        return false;
    }
    let mut j: usize = p;
    while j < n
        invariant
            p <= j <= n == t@.len(),
            strip_sign(t@) =~= t@.skip(p as int),
            forall|x: int| p <= x < j ==> is_digit(#[trigger] t@[x]),
        decreases n - j,
    {
        let c = *vstd::slice::slice_index_get(t, j);
        if c < 48 || c > 57 {
            proof {
                assert(t@.skip(p as int)[j - p] == t@[j as int]);
                assert(!is_digit(strip_sign(t@)[j - p]));
            }
            return false;
        }
        j += 1;
    }
    assert forall|i: int| 0 <= i < t@.skip(p as int).len() implies is_digit(
        #[trigger] t@.skip(p as int)[i],
    ) by {
        assert(t@.skip(p as int)[i] == t@[i + p]);
    }
    true
}

/// Every byte of a token the float grammar accepts is ASCII and none is a
/// space.
pub proof fn lemma_float_token_bytes(s: Seq<u8>)
    requires
        is_float_token(s),
    ensures
        is_ascii_bytes(s),
        forall|i: int| 0 <= i < s.len() ==> #[trigger] s[i] != 32,
{
    let b = strip_sign(s);
    let off: int = if s.len() > 0 && (s[0] == 43 || s[0] == 45) {
        1
    } else {
        0
    };
    assert forall|x: int| 0 <= x < b.len() implies (#[trigger] b[x] < 128 && b[x] != 32) by {
        if eq_ignore_case(b, inf_word()) {
            assert(lower(b[x]) == inf_word()[x]);
            assert(97 <= lower(b[x]) <= 121);
            if !(65 <= b[x] <= 90) {
                assert(lower(b[x]) == b[x]);
            }
        } else if eq_ignore_case(b, infinity_word()) {
            assert(lower(b[x]) == infinity_word()[x]);
            assert(97 <= lower(b[x]) <= 121);
            if !(65 <= b[x] <= 90) {
                assert(lower(b[x]) == b[x]);
            }
        } else if eq_ignore_case(b, nan_word()) {
            assert(lower(b[x]) == nan_word()[x]);
            assert(97 <= lower(b[x]) <= 121);
            if !(65 <= b[x] <= 90) {
                assert(lower(b[x]) == b[x]);
            }
        } else {
            let k = find_exp_from(b, 0);
            lemma_find_exp_bounds(b, 0);
            if x < k {
                assert(b.take(k)[x] == b[x]);
                assert(is_digit(b.take(k)[x]) || b.take(k)[x] == 46);
            } else if x == k {
                assert(b[k] == 101 || b[k] == 69);
            } else {
                let t = b.skip(k + 1);
                let toff: int = if t.len() > 0 && (t[0] == 43 || t[0] == 45) {
                    1
                } else {
                    0
                };
                let u = strip_sign(t);
                assert(t[x - k - 1] == b[x]);
                if toff == 1 && x == k + 1 {
                    assert(b[x] == 43 || b[x] == 45);
                } else {
                    assert(u =~= t.skip(toff));
                    assert(u[x - k - 1 - toff] == t[x - k - 1]);
                    assert(is_digit(u[x - k - 1 - toff]));
                }
            }
        }
    }
    assert forall|i: int| 0 <= i < s.len() implies (#[trigger] s[i] < 128 && s[i] != 32) by {
        if off == 1 && i == 0 {
            assert(s[0] == 43 || s[0] == 45);
        } else {
            assert(b =~= s.skip(off));
            assert(b[i - off] == s[i]);
        }
    }
}

/// Reports whether a token is accepted by the float grammar.
pub fn check_float_token(s: &[u8]) -> (r: bool)
    ensures
        r == is_float_token(s@),
{
    let n = s.len();
    let start: usize = if n > 0 && {
        let c = *vstd::slice::slice_index_get(s, 0);
        c == 43 || c == 45
    } {
        1
    } else {
        0
    };
    let b = vstd::slice::slice_subrange(s, start, n);
    assert(b@ =~= strip_sign(s@));
    if b.len() == 0 {
        return false;
    }
    if check_special(b) {
        return true;
    }
    let k = find_exp(b);
    let m = vstd::slice::slice_subrange(b, 0, k);
    assert(m@ =~= b@.take(k as int));
    if !check_mantissa(m) {
        return false;
    }
    if k == b.len() {
        return true;
    }
    let t = vstd::slice::slice_subrange(b, k + 1, b.len());
    assert(t@ =~= b@.skip(k + 1));
    check_exp_tail(t)
}

} // verus!
