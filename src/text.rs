use vstd::prelude::*;
use vstd::string::*;

verus! {

/// `a` and `b` agree on their first `k` characters.
pub open spec fn prefix_equal(a: Seq<char>, b: Seq<char>, k: int) -> bool {
    0 <= k <= a.len() && k <= b.len() && forall|j: int| 0 <= j < k ==> a[j] == b[j]
}

/// `a` orders before `b`, decided at position `k`.
pub open spec fn lt_at(a: Seq<char>, b: Seq<char>, k: int) -> bool {
    prefix_equal(a, b, k) && ((k == a.len() && k < b.len()) || (k < a.len() && k < b.len()
        && (a[k] as int) < (b[k] as int)))
}

/// Lexicographic order on character sequences, by code point.
pub open spec fn text_lt(a: Seq<char>, b: Seq<char>) -> bool {
    exists|k: int| lt_at(a, b, k)
}

/// Two distinct texts are ordered one way or the other.
pub proof fn lemma_text_total(a: Seq<char>, b: Seq<char>, k: int)
    requires
        prefix_equal(a, b, k),
        a != b,
    ensures
        text_lt(a, b) || text_lt(b, a),
    decreases a.len() - k,
{
    if k == a.len() && k == b.len() {
        assert(a =~= b);
    } else if k == a.len() {
        assert(lt_at(a, b, k));
    } else if k == b.len() {
        assert(lt_at(b, a, k));
    } else if a[k] != b[k] {
        if (a[k] as int) < (b[k] as int) {
            assert(lt_at(a, b, k));
        } else {
            assert(lt_at(b, a, k));
        }
    } else {
        lemma_text_total(a, b, k + 1);
    }
}

/// The text order is irreflexive and asymmetric.
pub proof fn lemma_text_asym(a: Seq<char>, b: Seq<char>)
    ensures
        !(text_lt(a, b) && text_lt(b, a)),
        !text_lt(a, a),
{
    if text_lt(a, b) && text_lt(b, a) {
        let k1 = choose|k: int| lt_at(a, b, k);
        let k2 = choose|k: int| lt_at(b, a, k);
        if k1 < k2 {
            assert(a[k1] == b[k1]);
        } else if k2 < k1 {
            assert(a[k2] == b[k2]);
        }
    }
}

/// The text order is transitive.
pub proof fn lemma_text_trans(a: Seq<char>, b: Seq<char>, c: Seq<char>)
    requires
        text_lt(a, b),
        text_lt(b, c),
    ensures
        text_lt(a, c),
{
    let k1 = choose|k: int| lt_at(a, b, k);
    let k2 = choose|k: int| lt_at(b, c, k);
    if k1 < k2 {
        assert(b[k1] == c[k1]);
        assert(lt_at(a, c, k1));
    } else if k2 < k1 {
        assert(a[k2] == b[k2]);
        assert(lt_at(a, c, k2));
    } else {
        assert(lt_at(a, c, k1));
    }
}

/// Compares two texts by `text_lt`.
pub fn compare_text(a: &str, b: &str) -> (r: core::cmp::Ordering)
    ensures
        (r == core::cmp::Ordering::Less) == text_lt(a@, b@),
        (r == core::cmp::Ordering::Greater) == text_lt(b@, a@),
        (r == core::cmp::Ordering::Equal) == (a@ == b@),
{
    let la = a.unicode_len();
    let lb = b.unicode_len();
    let mut i: usize = 0;
    while i < la && i < lb && a.get_char(i) == b.get_char(i)
        invariant
            la == a@.len(),
            lb == b@.len(),
            prefix_equal(a@, b@, i as int),
        decreases la - i,
    {
        i = i + 1;
    }
    proof {
        lemma_text_asym(a@, b@);
    }
    if i < la && i < lb {
        let ca = a.get_char(i);
        let cb = b.get_char(i);
        assert(a@ != b@) by {
            assert(a@[i as int] != b@[i as int]);
        }
        if (ca as u32) < (cb as u32) {
            assert(lt_at(a@, b@, i as int));
            core::cmp::Ordering::Less
        } else {
            assert(lt_at(b@, a@, i as int));
            core::cmp::Ordering::Greater
        }
    } else if la < lb {
        assert(lt_at(a@, b@, i as int));
        assert(a@.len() != b@.len());
        core::cmp::Ordering::Less
    } else if lb < la {
        assert(lt_at(b@, a@, i as int));
        assert(a@.len() != b@.len());
        core::cmp::Ordering::Greater
    } else {
        assert(a@ =~= b@);
        core::cmp::Ordering::Equal
    }
}

pub open spec fn is_ascii_upper(c: char) -> bool {
    'A' <= c <= 'Z'
}

/// The two characters are equal once ASCII letters are folded to lower case.
pub open spec fn same_folded(x: char, y: char) -> bool {
    x == y || (is_ascii_upper(x) && (x as int) + 32 == (y as int)) || (is_ascii_upper(y) && (
    y as int) + 32 == (x as int))
}

/// `needle` occurs in `hay` at position `k`, ignoring ASCII case.
pub open spec fn matches_at(hay: Seq<char>, needle: Seq<char>, k: int) -> bool {
    0 <= k && k + needle.len() <= hay.len() && forall|j: int|
        0 <= j < needle.len() ==> same_folded(#[trigger] hay[k + j], needle[j])
}

/// `needle` occurs somewhere in `hay`, ignoring ASCII case.
pub open spec fn contains_folded(hay: Seq<char>, needle: Seq<char>) -> bool {
    exists|k: int| matches_at(hay, needle, k)
}

fn chars_same_folded(x: char, y: char) -> (r: bool)
    ensures
        r == same_folded(x, y),
{
    let a = x as u32;
    let b = y as u32;
    a == b || ('A' <= x && x <= 'Z' && a + 32 == b) || ('A' <= y && y <= 'Z' && b + 32 == a)
}

/// Case-insensitive (ASCII) substring search.
pub fn contains_ignore_case(hay: &str, needle: &str) -> (r: bool)
    ensures
        r == contains_folded(hay@, needle@),
{
    let lh = hay.unicode_len();
    let ln = needle.unicode_len();
    if ln > lh {
        assert forall|k: int| !matches_at(hay@, needle@, k) by {}
        return false;
    }
    let mut k: usize = 0;
    while k <= lh - ln
        invariant
            lh == hay@.len(),
            ln == needle@.len(),
            ln <= lh,
            forall|q: int| 0 <= q < k ==> !matches_at(hay@, needle@, q),
        decreases lh - ln + 1 - k,
    {
        let mut j: usize = 0;
        let mut ok = true;
        while j < ln
            invariant
                lh == hay@.len(),
                ln == needle@.len(),
                k + ln <= lh,
                j <= ln,
                ok == (forall|t: int| 0 <= t < j ==> same_folded(hay@[k + t], needle@[t])),
            decreases ln - j,
        {
            if !chars_same_folded(hay.get_char(k + j), needle.get_char(j)) {
                ok = false;
            }
            j = j + 1;
        }
        if ok {
            assert(matches_at(hay@, needle@, k as int));
            return true;
        }
        assert(!matches_at(hay@, needle@, k as int)) by {
            let t = choose|t: int| 0 <= t < ln && !same_folded(hay@[k + t], needle@[t]);
            assert(hay@[k + t] == hay@[k as int + t]);
        }
        k = k + 1;
    }
    assert forall|q: int| !matches_at(hay@, needle@, q) by {
        if 0 <= q && q + ln <= lh {
            assert(q < k);
        }
    }
    false
}

} // verus!
