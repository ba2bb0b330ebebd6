//! Ordering the versions of a crate newest first, by SemVer precedence.
//!
//! A version number that is no valid SemVer version ranks after every valid
//! one; versions that rank alike keep the order in which they were given.

use vstd::prelude::*;

verus! {

/// Whether `semver::Version::parse` accepts the text.
pub uninterp spec fn semver_parses(text: Seq<char>) -> bool;

/// Whether the version that `semver::Version::parse` makes of `a` is less
/// than the one it makes of `b`, in semver's total order of versions.
pub uninterp spec fn semver_less(a: Seq<char>, b: Seq<char>) -> bool;

/// Calls `semver::Version::parse` and tells whether it succeeded. The parse
/// depends on the text alone, so its success is the name `semver_parses`.
/// semver's parser (and its documented syntax) accepts only a major, a minor
/// and a patch number of decimal digits, each fitting in a `u64`, separated
/// by dots and followed by nothing, by `-` (a pre-release) or by `+` (build
/// metadata): the contract states that shape of an accepted text.
#[verifier::external_body]
fn parses_as_semver(text: &str) -> (r: bool)
    ensures
        r == semver_parses(text@),
        r ==> version_shape(text@),
{
    semver::Version::parse(text).is_ok()
}

/// Compares two version numbers, both valid SemVer, with the `<` of
/// `semver::Version` (its derived `Ord`), after converting each text with
/// `semver::Version::parse`. The library asks it only about versions with
/// the same major, minor and patch numbers and the same pre-release
/// presence, where semver's order goes by the pre-release and build parts. semver documents this order as total: any two
/// versions are less, equal or greater. The contract states that the result
/// is the name `semver_less`, that it is asymmetric, and that a version not
/// below `b` lies above everything below `b`; it does not describe the order
/// itself (numeric fields, then pre-release, then build metadata).
#[verifier::external_body]
fn semver_lt(a: &str, b: &str) -> (r: bool)
    requires
        semver_parses(a@),
        semver_parses(b@),
    ensures
        r == semver_less(a@, b@),
        r ==> !semver_less(b@, a@),
        !r ==> forall|c: Seq<char>|
            semver_parses(c) && #[trigger] semver_less(c, b@) ==> semver_less(c, a@),
{
    let a = semver::Version::parse(a).unwrap();
    let b = semver::Version::parse(b).unwrap();
    a < b
}

/// A version of a crate: its id and its version number as published.
#[derive(Debug)]
pub struct VersionRecord {
    pub id: i32,
    pub num: String,
}

impl VersionRecord {
    /// A copy of the record.
    pub fn duplicate(&self) -> (r: VersionRecord)
        ensures
            r == *self,
    {
        VersionRecord { id: self.id, num: self.num.clone() }
    }
}

/// A decimal digit.
pub open spec fn is_digit(c: char) -> bool {
    48 <= (c as int) && (c as int) <= 57
}

/// The value of a decimal digit.
pub open spec fn digit_value(c: char) -> int {
    (c as int) - 48
}

/// The number that a string of decimal digits writes.
pub open spec fn digits_value(s: Seq<char>) -> int
    decreases s.len(),
{
    if s.len() == 0 {
        0
    } else {
        digits_value(s.drop_last()) * 10 + digit_value(s.last())
    }
}

/// The first index at or after `from` that holds no decimal digit (or the
/// length of `t`).
pub open spec fn digits_end(t: Seq<char>, from: int) -> int
    decreases t.len() - from,
{
    if 0 <= from < t.len() && is_digit(t[from]) {
        digits_end(t, from + 1)
    } else {
        from
    }
}

/// Where the major number of a version text ends.
pub open spec fn major_end(t: Seq<char>) -> int {
    digits_end(t, 0)
}

/// Where the minor number of a version text ends.
pub open spec fn minor_end(t: Seq<char>) -> int {
    digits_end(t, major_end(t) + 1)
}

/// Where the patch number of a version text ends.
pub open spec fn patch_end(t: Seq<char>) -> int {
    digits_end(t, minor_end(t) + 1)
}

/// The major number of a version text `MAJOR.MINOR.PATCH...`.
pub open spec fn major(t: Seq<char>) -> int {
    digits_value(t.subrange(0, major_end(t)))
}

/// The minor number of a version text.
pub open spec fn minor(t: Seq<char>) -> int {
    digits_value(t.subrange(major_end(t) + 1, minor_end(t)))
}

/// The patch number of a version text.
pub open spec fn patch(t: Seq<char>) -> int {
    digits_value(t.subrange(minor_end(t) + 1, patch_end(t)))
}

/// The version text has a pre-release part (`-...` after the patch number).
pub open spec fn has_pre(t: Seq<char>) -> bool {
    patch_end(t) < t.len() && t[patch_end(t)] == '-'
}

/// The text starts with three numbers of decimal digits, each fitting in a
/// `u64`, separated by dots, and goes on with nothing, `-` or `+`.
pub open spec fn version_shape(t: Seq<char>) -> bool {
    &&& 0 < major_end(t) < t.len() && t[major_end(t)] == '.'
    &&& major_end(t) + 1 < minor_end(t) < t.len() && t[minor_end(t)] == '.'
    &&& minor_end(t) + 1 < patch_end(t)
    &&& (patch_end(t) == t.len() || t[patch_end(t)] == '-' || t[patch_end(t)] == '+')
    &&& major(t) <= u64::MAX && minor(t) <= u64::MAX && patch(t) <= u64::MAX
}

/// 0 for a pre-release, 1 for a release: a pre-release ranks below.
pub open spec fn release_rank(t: Seq<char>) -> int {
    if has_pre(t) { 0 } else { 1 }
}

/// `a` is lower than `b` by (major, minor, patch), compared as numbers from
/// left to right, and then by pre-release before release.
pub open spec fn key_less(a: Seq<char>, b: Seq<char>) -> bool {
    ||| major(a) < major(b)
    ||| major(a) == major(b) && minor(a) < minor(b)
    ||| major(a) == major(b) && minor(a) == minor(b) && patch(a) < patch(b)
    ||| major(a) == major(b) && minor(a) == minor(b) && patch(a) == patch(b)
        && release_rank(a) < release_rank(b)
}

/// `a` and `b` have the same numbers and both or neither are pre-releases.
pub open spec fn same_key(a: Seq<char>, b: Seq<char>) -> bool {
    &&& major(a) == major(b)
    &&& minor(a) == minor(b)
    &&& patch(a) == patch(b)
    &&& has_pre(a) == has_pre(b)
}

/// SemVer precedence of two valid version texts: the numbers, then a
/// pre-release below a release, then semver's order of the pre-release and
/// build parts.
pub open spec fn semver_below(a: Seq<char>, b: Seq<char>) -> bool {
    key_less(a, b) || (same_key(a, b) && semver_less(a, b))
}

/// `a` ranks strictly before `b` in a newest-first list: `a` is valid SemVer,
/// and `b` is either not valid SemVer or a lower version.
pub open spec fn outranks(a: Seq<char>, b: Seq<char>) -> bool {
    semver_parses(a) && (!semver_parses(b) || semver_below(b, a))
}

/// Version `i` of `versions` ranks strictly before version `j`.
pub open spec fn version_outranks(versions: Seq<VersionRecord>, i: int, j: int) -> bool {
    outranks(versions[i].num@, versions[j].num@)
}

/// `order` lists distinct indices below `bound`, all of them, no later one
/// ranking before an earlier one (by `above`), and indices that rank alike
/// in increasing order.
pub open spec fn ranked_indices(above: spec_fn(int, int) -> bool, order: Seq<usize>, bound: int) -> bool {
    &&& order.len() == bound
    &&& forall|k: int| 0 <= k < order.len() ==> order[k] < bound
    &&& forall|j: usize| j < bound ==> #[trigger] order.contains(j)
    &&& forall|k: int, l: int| 0 <= k < l < order.len() ==> order[k] != order[l]
    &&& forall|k: int, l: int|
        0 <= k < l < order.len() ==> !above(order[l] as int, order[k] as int)
    &&& forall|k: int, l: int|
        0 <= k < l < order.len() && !above(order[k] as int, order[l] as int)
            ==> order[k] < order[l]
}

/// `order` is a permutation of the indices of `versions` that lists them
/// newest first, by a stable sort.
pub open spec fn is_newest_first(versions: Seq<VersionRecord>, order: Seq<usize>) -> bool {
    ranked_indices(|i: int, j: int| version_outranks(versions, i, j), order, versions.len() as int)
}

/// Item `i` ranks strictly before item `j`, where `valid` tells which items
/// take part in the order and `lower[a][b]` whether valid item `a` is lower
/// than valid item `b`: `i` is valid, and `j` is either not valid or lower.
pub open spec fn ranks_above(valid: Seq<bool>, lower: Seq<Vec<bool>>, i: int, j: int) -> bool {
    valid[i] && (!valid[j] || lower[j]@[i])
}

/// `valid` and `lower` describe a strict weak order of `valid.len()` items:
/// never both `i` above `j` and `j` above `i`, and an item that is not
/// above `j` is not above anything that `j` is not above.
pub open spec fn is_ranking(valid: Seq<bool>, lower: Seq<Vec<bool>>) -> bool {
    &&& lower.len() == valid.len()
    &&& forall|i: int| 0 <= i < lower.len() ==> (#[trigger] lower[i]).len() == valid.len()
    &&& forall|i: int, j: int|
        0 <= i < valid.len() && 0 <= j < valid.len() && #[trigger] ranks_above(valid, lower, i, j)
            ==> !ranks_above(valid, lower, j, i)
    &&& forall|x: int, y: int, z: int|
        0 <= x < valid.len() && 0 <= y < valid.len() && 0 <= z < valid.len()
            && !#[trigger] ranks_above(valid, lower, x, y) && #[trigger] ranks_above(valid, lower, x, z)
            ==> ranks_above(valid, lower, y, z)
}

/// The indices `0..valid.len()`, highest ranking first; items that rank
/// alike keep their order.
pub fn order_by_rank(valid: &Vec<bool>, lower: &Vec<Vec<bool>>) -> (order: Vec<usize>)
    requires
        is_ranking(valid@, lower@),
    ensures
        ranked_indices(|i: int, j: int| ranks_above(valid@, lower@, i, j), order@, valid.len() as int),
{
    let n = valid.len();
    let ghost above = |i: int, j: int| ranks_above(valid@, lower@, i, j);
    let mut order: Vec<usize> = Vec::new();
    for i in 0..n
        invariant
            n == valid.len(),
            is_ranking(valid@, lower@),
            above == (|i: int, j: int| ranks_above(valid@, lower@, i, j)),
            ranked_indices(above, order@, i as int),
    {
        let mut p: usize = order.len();
        loop
            invariant
                n == valid.len(),
                is_ranking(valid@, lower@),
                above == (|i: int, j: int| ranks_above(valid@, lower@, i, j)),
                i < n,
                ranked_indices(above, order@, i as int),
                p <= order.len(),
                forall|l: int| p <= l < order.len() ==> ranks_above(valid@, lower@, i as int, #[trigger] order@[l] as int),
            ensures
                p <= order.len(),
                forall|l: int| p <= l < order.len() ==> ranks_above(valid@, lower@, i as int, #[trigger] order@[l] as int),
                forall|k: int| 0 <= k < p ==> !ranks_above(valid@, lower@, i as int, #[trigger] order@[k] as int),
            decreases p,
        {
            if p == 0 {
                break;
            }
            let y = order[p - 1];
            let before = valid[i] && (!valid[y] || lower[y][i]);
            if !before {
                assert(!ranks_above(valid@, lower@, i as int, y as int));
                assert forall|k: int| 0 <= k < p implies !ranks_above(valid@, lower@, i as int, #[trigger] order@[k] as int) by {
                    if k < p - 1 {
                        assert(!above(order@[p - 1] as int, order@[k] as int));
                        if ranks_above(valid@, lower@, i as int, order@[k] as int) {
                            assert(ranks_above(valid@, lower@, y as int, order@[k] as int));
                        }
                    }
                }
                break;
            }
            p = p - 1;
        }
        let ghost old_order = order@;
        order.insert(p, i);
        proof {
            let o = order@;
            assert(o == old_order.insert(p as int, i));
            assert forall|k: int| 0 <= k < o.len() implies o[k] < i + 1 by {
                if k > p as int {
                    assert(o[k] == old_order[k - 1]);
                }
            }
            assert forall|j: usize| j < i + 1 implies #[trigger] o.contains(j) by {
                if j == i {
                    assert(o[p as int] == i);
                } else {
                    assert(old_order.contains(j));
                    let k = choose|k: int| 0 <= k < old_order.len() && old_order[k] == j;
                    if k < p {
                        assert(o[k] == j);
                    } else {
                        assert(o[k + 1] == j);
                    }
                }
            }
            assert forall|k: int, l: int| 0 <= k < l < o.len() implies o[k] != o[l] by {
                if k < p && l > p {
                    assert(o[l] == old_order[l - 1]);
                } else if k > p {
                    assert(o[l] == old_order[l - 1]);
                    assert(o[k] == old_order[k - 1]);
                } else if l == p {
                    assert(old_order[k] < i);
                } else if k == p {
                    assert(o[l] == old_order[l - 1]);
                }
            }
            assert forall|k: int, l: int| 0 <= k < l < o.len()
                implies !above(o[l] as int, o[k] as int) by {
                if k < p && l > p {
                    assert(o[l] == old_order[l - 1]);
                } else if k > p {
                    assert(o[l] == old_order[l - 1]);
                    assert(o[k] == old_order[k - 1]);
                } else if l == p {
                    assert(o[k] == old_order[k]);
                } else if k == p {
                    assert(o[l] == old_order[l - 1]);
                    assert(ranks_above(valid@, lower@, i as int, old_order[l - 1] as int));
                }
            }
            assert forall|k: int, l: int| 0 <= k < l < o.len()
                && !above(o[k] as int, o[l] as int)
                implies o[k] < o[l] by {
                if k < p && l > p {
                    assert(o[l] == old_order[l - 1]);
                } else if k > p {
                    assert(o[l] == old_order[l - 1]);
                    assert(o[k] == old_order[k - 1]);
                } else if l == p {
                    assert(old_order[k] < i);
                } else if k == p {
                    assert(o[l] == old_order[l - 1]);
                    assert(ranks_above(valid@, lower@, i as int, old_order[l - 1] as int));
                }
            }
        }
    }
    order
}

/// What semver's order tells of two valid version numbers `a` and `b`:
/// whether `a` is lower, and the facts of a total order seen from the pair.
#[verifier::opaque]
pub open spec fn compared(a: Seq<char>, b: Seq<char>) -> bool {
    &&& semver_less(a, b) ==> !semver_less(b, a)
    &&& !semver_less(a, b) ==> forall|c: Seq<char>|
        semver_parses(c) && #[trigger] semver_less(c, b) ==> semver_less(c, a)
}

proof fn lemma_digits_end(t: Seq<char>, from: int)
    requires
        0 <= from,
    ensures
        from <= digits_end(t, from),
        digits_end(t, from) <= t.len() || digits_end(t, from) == from,
        forall|j: int| from <= j < digits_end(t, from) ==> is_digit(#[trigger] t[j]),
        digits_end(t, from) < t.len() ==> !is_digit(t[digits_end(t, from)]),
    decreases t.len() - from,
{
    if 0 <= from < t.len() && is_digit(t[from]) {
        lemma_digits_end(t, from + 1);
    }
}

proof fn lemma_digits_prefix(s: Seq<char>, k: int)
    requires
        0 <= k <= s.len(),
        forall|j: int| 0 <= j < s.len() ==> is_digit(#[trigger] s[j]),
    ensures
        0 <= digits_value(s.take(k)) <= digits_value(s),
    decreases s.len(),
{
    if s.len() > 0 {
        let front = s.drop_last();
        assert forall|j: int| 0 <= j < front.len() implies is_digit(#[trigger] front[j]) by {
            assert(front[j] == s[j]);
        }
        if k < s.len() {
            lemma_digits_prefix(front, k);
            assert(front.take(k) == s.take(k));
        } else {
            lemma_digits_prefix(front, front.len() as int);
            assert(front.take(front.len() as int) == front);
            assert(s.take(k) == s);
        }
        assert(is_digit(s[s.len() - 1]));
    } else {
        assert(s.take(k) == s);
    }
}

/// Reads the number of decimal digits of `text` that starts at `from`:
/// its value and where it ends.
fn read_number(text: &str, len: usize, from: usize) -> (r: (u64, usize))
    requires
        len == text@.len(),
        from <= len,
        digits_value(text@.subrange(from as int, digits_end(text@, from as int))) <= u64::MAX,
    ensures
        r.1 == digits_end(text@, from as int),
        r.0 == digits_value(text@.subrange(from as int, r.1 as int)),
{
    let ghost t = text@;
    let ghost end = digits_end(t, from as int);
    proof {
        lemma_digits_end(t, from as int);
    }
    let mut i = from;
    let mut acc: u64 = 0;
    loop
        invariant
            len == t.len(),
            t == text@,
            end == digits_end(t, from as int),
            from <= end <= len,
            forall|j: int| from <= j < end ==> is_digit(#[trigger] t[j]),
            end < len ==> !is_digit(t[end]),
            from <= i <= end,
            acc == digits_value(t.subrange(from as int, i as int)),
            digits_value(t.subrange(from as int, end)) <= u64::MAX,
        ensures
            i == end,
            acc == digits_value(t.subrange(from as int, i as int)),
        decreases len - i,
    {
        if i == len {
            break;
        }
        let c = text.get_char(i);
        if !(48 <= (c as u32) && (c as u32) <= 57) {
            break;
        }
        proof {
            let s = t.subrange(from as int, end);
            assert forall|j: int| 0 <= j < s.len() implies is_digit(#[trigger] s[j]) by {
                assert(s[j] == t[from + j]);
            }
            lemma_digits_prefix(s, i + 1 - from);
            assert(s.take(i + 1 - from) == t.subrange(from as int, i + 1));
            assert(t.subrange(from as int, i + 1).drop_last() == t.subrange(from as int, i as int));
        }
        acc = acc * 10 + ((c as u32) - 48) as u64;
        i = i + 1;
    }
    (acc, i)
}

/// The major, minor and patch numbers of a version text, and whether it is
/// a release (no pre-release part).
fn version_key(text: &str) -> (k: (u64, u64, u64, bool))
    requires
        version_shape(text@),
    ensures
        k.0 == major(text@),
        k.1 == minor(text@),
        k.2 == patch(text@),
        k.3 == !has_pre(text@),
{
    let len = text.unicode_len();
    let (major_n, e1) = read_number(text, len, 0);
    let (minor_n, e2) = read_number(text, len, e1 + 1);
    let (patch_n, e3) = read_number(text, len, e2 + 1);
    let release = !(e3 < len && text.get_char(e3) == '-');
    (major_n, minor_n, patch_n, release)
}

/// Whether key `x` is lower than key `y`: by the numbers from left to right,
/// then a pre-release below a release.
fn key_lt(x: (u64, u64, u64, bool), y: (u64, u64, u64, bool)) -> (r: bool)
    ensures
        r == (x.0 < y.0 || (x.0 == y.0 && x.1 < y.1) || (x.0 == y.0 && x.1 == y.1 && x.2 < y.2)
            || (x.0 == y.0 && x.1 == y.1 && x.2 == y.2 && !x.3 && y.3)),
{
    if x.0 != y.0 {
        x.0 < y.0
    } else if x.1 != y.1 {
        x.1 < y.1
    } else if x.2 != y.2 {
        x.2 < y.2
    } else {
        !x.3 && y.3
    }
}

proof fn lemma_below_asymmetric(a: Seq<char>, b: Seq<char>)
    requires
        same_key(a, b) ==> compared(a, b),
    ensures
        semver_below(a, b) ==> !semver_below(b, a),
{
    reveal(compared);
}

proof fn lemma_below_negatively_transitive(x: Seq<char>, y: Seq<char>, z: Seq<char>)
    requires
        semver_parses(z),
        same_key(y, x) ==> compared(y, x),
    ensures
        !semver_below(y, x) && semver_below(z, x) ==> semver_below(z, y),
{
    reveal(compared);
    if !semver_below(y, x) && semver_below(z, x) && same_key(y, x) && same_key(z, x) {
        assert(semver_less(z, x));
        assert(semver_less(z, y));
    }
}

/// Compares version `a` with every version, where both are valid SemVer:
/// by their numbers and pre-release, and with semver's order where those
/// are alike.
fn compare_with_all(
    versions: &Vec<VersionRecord>,
    valid: &Vec<bool>,
    keys: &Vec<(u64, u64, u64, bool)>,
    a: usize,
) -> (row: Vec<bool>)
    requires
        a < versions.len(),
        valid.len() == versions.len(),
        keys.len() == versions.len(),
        forall|j: int| 0 <= j < valid.len() ==> valid[j] == semver_parses(#[trigger] versions[j].num@),
        forall|j: int| 0 <= j < valid.len() && valid[j] ==> {
            let t = #[trigger] versions[j].num@;
            &&& keys[j].0 == major(t)
            &&& keys[j].1 == minor(t)
            &&& keys[j].2 == patch(t)
            &&& keys[j].3 == !has_pre(t)
        },
    ensures
        row.len() == versions.len(),
        forall|j: int| 0 <= j < versions.len() && valid[a as int] && valid[j]
            ==> #[trigger] row@[j] == semver_below(versions@[a as int].num@, versions@[j].num@),
        forall|j: int| 0 <= j < versions.len() && valid[a as int] && valid[j]
            && same_key(versions@[a as int].num@, versions@[j].num@)
            ==> #[trigger] compared(versions@[a as int].num@, versions@[j].num@),
{
    let n = versions.len();
    let mut row: Vec<bool> = Vec::new();
    for b in 0..n
        invariant
            n == versions.len(),
            valid.len() == n,
            keys.len() == n,
            forall|j: int| 0 <= j < n ==> valid[j] == semver_parses(#[trigger] versions[j].num@),
            forall|j: int| 0 <= j < n && valid[j] ==> {
                let t = #[trigger] versions[j].num@;
                &&& keys[j].0 == major(t)
                &&& keys[j].1 == minor(t)
                &&& keys[j].2 == patch(t)
                &&& keys[j].3 == !has_pre(t)
            },
            a < n,
            row.len() == b,
            forall|j: int| 0 <= j < b && valid[a as int] && valid[j]
                ==> #[trigger] row@[j] == semver_below(versions@[a as int].num@, versions@[j].num@),
            forall|j: int| 0 <= j < b && valid[a as int] && valid[j]
                && same_key(versions@[a as int].num@, versions@[j].num@)
                ==> #[trigger] compared(versions@[a as int].num@, versions@[j].num@),
    {
        if valid[a] && valid[b] {
            let ka = keys[a];
            let kb = keys[b];
            let ghost ta = versions@[a as int].num@;
            let ghost tb = versions@[b as int].num@;
            assert(ka.0 == major(ta) && ka.1 == minor(ta) && ka.2 == patch(ta) && ka.3 == !has_pre(ta));
            assert(kb.0 == major(tb) && kb.1 == minor(tb) && kb.2 == patch(tb) && kb.3 == !has_pre(tb));
            if ka.0 == kb.0 && ka.1 == kb.1 && ka.2 == kb.2 && ka.3 == kb.3 {
                let lt = semver_lt(versions[a].num.as_str(), versions[b].num.as_str());
                proof {
                    reveal(compared);
                    assert(compared(ta, tb));
                }
                row.push(lt);
            } else {
                row.push(key_lt(ka, kb));
            }
        } else {
            row.push(false);
        }
    }
    row
}

/// The indices of `versions`, newest first: valid SemVer versions by
/// descending precedence, then the others; versions that rank alike keep
/// their order.
pub fn order_versions(versions: &Vec<VersionRecord>) -> (order: Vec<usize>)
    ensures
        is_newest_first(versions@, order@),
{
    let n = versions.len();
    let mut valid: Vec<bool> = Vec::new();
    let mut keys: Vec<(u64, u64, u64, bool)> = Vec::new();
    for i in 0..n
        invariant
            n == versions.len(),
            valid.len() == i,
            keys.len() == i,
            forall|j: int| 0 <= j < i ==> valid[j] == semver_parses(#[trigger] versions[j].num@),
            forall|j: int| 0 <= j < i && valid[j] ==> {
                let t = #[trigger] versions[j].num@;
                &&& keys[j].0 == major(t)
                &&& keys[j].1 == minor(t)
                &&& keys[j].2 == patch(t)
                &&& keys[j].3 == !has_pre(t)
            },
    {
        let ok = parses_as_semver(versions[i].num.as_str());
        valid.push(ok);
        if ok {
            keys.push(version_key(versions[i].num.as_str()));
        } else {
            keys.push((0, 0, 0, false));
        }
    }
    let mut lower: Vec<Vec<bool>> = Vec::new();
    for a in 0..n
        invariant
            n == versions.len(),
            valid.len() == n,
            keys.len() == n,
            forall|j: int| 0 <= j < n ==> valid[j] == semver_parses(#[trigger] versions[j].num@),
            forall|j: int| 0 <= j < n && valid[j] ==> {
                let t = #[trigger] versions[j].num@;
                &&& keys[j].0 == major(t)
                &&& keys[j].1 == minor(t)
                &&& keys[j].2 == patch(t)
                &&& keys[j].3 == !has_pre(t)
            },
            lower.len() == a,
            forall|i: int| 0 <= i < a ==> (#[trigger] lower@[i]).len() == n,
            forall|i: int, j: int| 0 <= i < a && 0 <= j < n && valid[i] && valid[j]
                ==> #[trigger] lower@[i]@[j] == semver_below(versions@[i].num@, versions@[j].num@),
            forall|i: int, j: int| 0 <= i < a && 0 <= j < n && valid[i] && valid[j]
                && same_key(versions@[i].num@, versions@[j].num@)
                ==> #[trigger] compared(versions@[i].num@, versions@[j].num@),
    {
        let row = compare_with_all(versions, &valid, &keys, a);
        lower.push(row);
        proof {
            assert(lower@[a as int] == row);
            assert forall|i: int, j: int| 0 <= i < a + 1 && 0 <= j < n && valid[i] && valid[j]
                implies #[trigger] lower@[i]@[j] == semver_below(versions@[i].num@, versions@[j].num@) by {
                if i == a {
                    assert(row@[j] == semver_below(versions@[a as int].num@, versions@[j].num@));
                }
            }
        }
    }
    proof {
        assert forall|i: int, j: int|
            0 <= i < n && 0 <= j < n implies #[trigger] ranks_above(valid@, lower@, i, j)
                == version_outranks(versions@, i, j) by {
            if valid[i] && valid[j] {
                assert(lower@[j]@[i] == semver_below(versions@[j].num@, versions@[i].num@));
            }
        }
        assert forall|i: int, j: int|
            0 <= i < n && 0 <= j < n && #[trigger] ranks_above(valid@, lower@, i, j)
                implies !ranks_above(valid@, lower@, j, i) by {
            if valid[i] && valid[j] {
                let ti = versions@[i].num@;
                let tj = versions@[j].num@;
                assert(lower@[j]@[i] == semver_below(tj, ti));
                assert(lower@[i]@[j] == semver_below(ti, tj));
                if same_key(tj, ti) {
                    assert(compared(tj, ti));
                }
                lemma_below_asymmetric(tj, ti);
            }
        }
        assert forall|x: int, y: int, z: int|
            0 <= x < n && 0 <= y < n && 0 <= z < n
                && !#[trigger] ranks_above(valid@, lower@, x, y) && #[trigger] ranks_above(valid@, lower@, x, z)
                implies ranks_above(valid@, lower@, y, z) by {
            if valid[y] && valid[z] {
                let tx = versions@[x].num@;
                let ty = versions@[y].num@;
                let tz = versions@[z].num@;
                assert(lower@[y]@[x] == semver_below(ty, tx));
                assert(lower@[z]@[x] == semver_below(tz, tx));
                assert(lower@[z]@[y] == semver_below(tz, ty));
                if same_key(ty, tx) {
                    assert(compared(ty, tx));
                }
                lemma_below_negatively_transitive(tx, ty, tz);
            }
        }
    }
    let order = order_by_rank(&valid, &lower);
    proof {
        let above = |i: int, j: int| ranks_above(valid@, lower@, i, j);
        let outr = |i: int, j: int| version_outranks(versions@, i, j);
        let o = order@;
        assert forall|k: int, l: int| 0 <= k < l < o.len() implies !outr(o[l] as int, o[k] as int) by {
            assert(!above(o[l] as int, o[k] as int));
            assert(ranks_above(valid@, lower@, o[l] as int, o[k] as int) == version_outranks(versions@, o[l] as int, o[k] as int));
        }
        assert forall|k: int, l: int| 0 <= k < l < o.len() && !outr(o[k] as int, o[l] as int)
            implies o[k] < o[l] by {
            assert(ranks_above(valid@, lower@, o[k] as int, o[l] as int) == version_outranks(versions@, o[k] as int, o[l] as int));
        }
    }
    order
}

/// `sorted` holds the versions that `order` lists, in that order.
pub open spec fn listed_in_order(versions: Seq<VersionRecord>, order: Seq<usize>, sorted: Seq<VersionRecord>) -> bool {
    &&& sorted.len() == order.len()
    &&& forall|k: int| 0 <= k < order.len() ==> #[trigger] sorted[k] == versions[order[k] as int]
}

/// The versions, newest first (see `order_versions`).
pub fn sort_versions(versions: &Vec<VersionRecord>) -> (sorted: Vec<VersionRecord>)
    ensures
        exists|order: Seq<usize>| is_newest_first(versions@, order) && listed_in_order(versions@, order, sorted@),
{
    let order = order_versions(versions);
    let mut sorted: Vec<VersionRecord> = Vec::new();
    for k in 0..order.len()
        invariant
            is_newest_first(versions@, order@),
            sorted.len() == k,
            forall|j: int| 0 <= j < k ==> #[trigger] sorted@[j] == versions@[order@[j] as int],
    {
        sorted.push(versions[order[k]].duplicate());
    }
    assert(listed_in_order(versions@, order@, sorted@));
    sorted
}

/// How many of the newest versions have their downloads listed one by one.
pub const LATEST_COUNT: usize = 5;

/// Splits newest-first versions into the first five (or all, if there are
/// fewer) and the rest.
pub fn split_latest(sorted: Vec<VersionRecord>) -> (parts: (Vec<VersionRecord>, Vec<VersionRecord>))
    ensures
        parts.0@ == sorted@.take(latest_len(sorted@.len())),
        parts.1@ == sorted@.skip(latest_len(sorted@.len())),
        parts.0.len() == (if sorted.len() <= 5 { sorted.len() as int } else { 5 }),
        parts.0@ + parts.1@ == sorted@,
{
    let mut latest = sorted;
    let at = if latest.len() < LATEST_COUNT { latest.len() } else { LATEST_COUNT };
    let ghost all = latest@;
    let rest = latest.split_off(at);
    assert(latest@ + rest@ =~= all);
    (latest, rest)
}

/// The number of versions whose downloads are listed one by one, of `n`.
pub open spec fn latest_len(n: nat) -> int {
    if n < LATEST_COUNT { n as int } else { LATEST_COUNT as int }
}

/// The ids of the versions, in order.
pub fn version_ids(versions: &Vec<VersionRecord>) -> (ids: Vec<i32>)
    ensures
        ids@ == versions@.map_values(|v: VersionRecord| v.id),
{
    let mut ids: Vec<i32> = Vec::new();
    for k in 0..versions.len()
        invariant
            ids@ == versions@.take(k as int).map_values(|v: VersionRecord| v.id),
    {
        ids.push(versions[k].id);
        assert(versions@.take(k + 1) == versions@.take(k as int).push(versions@[k as int]));
    }
    assert(versions@.take(versions.len() as int) == versions@);
    ids
}

/// Law: newest first, every valid SemVer version comes before every version
/// number that is not valid SemVer, and of two valid ones the lower never
/// comes first.
pub proof fn law_valid_versions_first(versions: Seq<VersionRecord>, order: Seq<usize>, k: int, l: int)
    requires
        is_newest_first(versions, order),
        0 <= k < l < order.len(),
        semver_parses(versions[order[l] as int].num@),
    ensures
        semver_parses(versions[order[k] as int].num@),
        !semver_below(versions[order[k] as int].num@, versions[order[l] as int].num@),
{
    assert(!version_outranks(versions, order[l] as int, order[k] as int));
}

/// Law: newest first, of two valid versions the one listed first has the
/// larger (major, minor, patch), compared as numbers from the left, or the
/// same three numbers; and with the same numbers a pre-release never comes
/// before the release. So with equal major and minor numbers, the larger
/// patch number comes first.
pub proof fn law_newest_first_by_numbers(versions: Seq<VersionRecord>, order: Seq<usize>, k: int, l: int)
    requires
        is_newest_first(versions, order),
        0 <= k < l < order.len(),
        semver_parses(versions[order[k] as int].num@),
        semver_parses(versions[order[l] as int].num@),
    ensures
        ({
            let a = versions[order[k] as int].num@;
            let b = versions[order[l] as int].num@;
            &&& major(a) >= major(b)
            &&& major(a) == major(b) ==> minor(a) >= minor(b)
            &&& major(a) == major(b) && minor(a) == minor(b) ==> patch(a) >= patch(b)
            &&& major(a) == major(b) && minor(a) == minor(b) && patch(a) == patch(b)
                ==> !(has_pre(a) && !has_pre(b))
        }),
{
    assert(!version_outranks(versions, order[l] as int, order[k] as int));
}

proof fn lemma_digits_run(t: Seq<char>, from: int, to: int)
    requires
        0 <= from <= to <= t.len(),
        forall|j: int| from <= j < to ==> is_digit(#[trigger] t[j]),
        to == t.len() || !is_digit(t[to]),
    ensures
        digits_end(t, from) == to,
    decreases to - from,
{
    if from < to {
        lemma_digits_run(t, from + 1, to);
    }
}

/// All characters are decimal digits, and there is at least one.
pub open spec fn is_numeral(s: Seq<char>) -> bool {
    s.len() > 0 && forall|j: int| 0 <= j < s.len() ==> is_digit(#[trigger] s[j])
}

/// Law: the numbers of a version text `M.N.P` followed by nothing, by a
/// pre-release `-...` or by build metadata `+...` are the decimal values of
/// `M`, `N` and `P`, and the text is a pre-release exactly when the rest
/// starts with `-`.
pub proof fn law_version_numbers(m: Seq<char>, n: Seq<char>, p: Seq<char>, rest: Seq<char>)
    requires
        is_numeral(m),
        is_numeral(n),
        is_numeral(p),
        rest.len() == 0 || rest[0] == '-' || rest[0] == '+',
    ensures
        ({
            let t = m + seq!['.'] + n + seq!['.'] + p + rest;
            &&& major(t) == digits_value(m)
            &&& minor(t) == digits_value(n)
            &&& patch(t) == digits_value(p)
            &&& has_pre(t) == (rest.len() > 0 && rest[0] == '-')
        }),
{
    let t = m + seq!['.'] + n + seq!['.'] + p + rest;
    let e1 = m.len() as int;
    let e2 = e1 + 1 + n.len();
    let e3 = e2 + 1 + p.len();
    assert forall|j: int| 0 <= j < e1 implies is_digit(#[trigger] t[j]) by {
        assert(t[j] == m[j]);
    }
    assert(t[e1] == '.');
    lemma_digits_run(t, 0, e1);
    assert forall|j: int| e1 + 1 <= j < e2 implies is_digit(#[trigger] t[j]) by {
        assert(t[j] == n[j - e1 - 1]);
    }
    assert(t[e2] == '.');
    lemma_digits_run(t, e1 + 1, e2);
    assert forall|j: int| e2 + 1 <= j < e3 implies is_digit(#[trigger] t[j]) by {
        assert(t[j] == p[j - e2 - 1]);
    }
    if e3 < t.len() {
        assert(t[e3] == rest[0]);
    }
    lemma_digits_run(t, e2 + 1, e3);
    assert(t.subrange(0, e1) == m);
    assert(t.subrange(e1 + 1, e2) == n);
    assert(t.subrange(e2 + 1, e3) == p);
}

/// Law: of `n` newest-first versions, the newest part holds all of them when
/// there are at most five, and exactly five otherwise.
pub proof fn law_latest_len(n: nat)
    ensures
        n <= 5 ==> latest_len(n) == n,
        n > 5 ==> latest_len(n) == 5,
{
}

/// Law: splitting newest-first versions gives the first min(5, n) of them
/// and then all the others, in order, nothing lost or repeated.
pub proof fn law_split_latest(sorted: Seq<VersionRecord>, latest: Seq<VersionRecord>, rest: Seq<VersionRecord>)
    requires
        latest == sorted.take(latest_len(sorted.len())),
        rest == sorted.skip(latest_len(sorted.len())),
    ensures
        latest.len() == (if sorted.len() <= 5 { sorted.len() as int } else { 5 }),
        rest.len() == sorted.len() - latest.len(),
        latest + rest == sorted,
        forall|k: int| 0 <= k < latest.len() ==> #[trigger] latest[k] == sorted[k],
        forall|k: int| 0 <= k < rest.len() ==> #[trigger] rest[k] == sorted[latest.len() + k],
{
    assert(latest + rest =~= sorted);
}

} // verus!
