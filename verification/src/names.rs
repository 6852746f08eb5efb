//! Names of files: which belong to a run, what follows from them, and their order.

use crate::text::{chars_of, starts_with};
use vstd::prelude::*;
use vstd::slice::slice_subrange;

verus! {

/// The characters of strings.
pub open spec fn texts(v: Seq<String>) -> Seq<Seq<char>> {
    v.map_values(|s: String| s@)
}

/// The name of a PNG file: it has the extension `png`, and more than that.
pub open spec fn is_png(name: Seq<char>) -> bool {
    name.len() > 4 && ".png"@.is_suffix_of(name)
}

/// The name of a file with ASCII art.
pub open spec fn is_art(name: Seq<char>) -> bool {
    ".ascii.txt"@.is_suffix_of(name)
}

/// The kinds of files that a run looks for.
#[derive(Clone, Copy, Debug, PartialEq, Eq, Structural)]
pub enum Kind {
    /// Pictures.
    Png,
    /// ASCII art as text.
    Art,
}

impl Kind {
    /// The name is that of a file of this kind.
    pub open spec fn admits(self, name: Seq<char>) -> bool {
        match self {
            Kind::Png => is_png(name),
            Kind::Art => is_art(name),
        }
    }
}

/// The name of a PNG file without its extension.
pub open spec fn stem(name: Seq<char>) -> Seq<char> {
    name.take(name.len() - 4)
}

/// `s` without the occurrences of `part`, taken from the left.
pub open spec fn without(s: Seq<char>, part: Seq<char>) -> Seq<char>
    decreases s.len(),
{
    if s.len() == 0 {
        s
    } else if part.len() > 0 && part.is_prefix_of(s) {
        without(s.skip(part.len() as int), part)
    } else {
        seq![s[0]] + without(s.skip(1), part)
    }
}

/// `a` comes before `b` or is equal to it: at the first place where they differ `a` has the
/// smaller character, or `a` ends there.
pub open spec fn at_most(a: Seq<char>, b: Seq<char>) -> bool
    decreases a.len(),
{
    if a.len() == 0 {
        true
    } else if b.len() == 0 {
        false
    } else if a[0] == b[0] {
        at_most(a.skip(1), b.skip(1))
    } else {
        a[0] < b[0]
    }
}

/// Names in ascending order.
pub open spec fn ascending(names: Seq<Seq<char>>) -> bool {
    forall|i: int, j: int|
        0 <= i <= j < names.len() ==> at_most(#[trigger] names[i], #[trigger] names[j])
}

/// `r` holds the names of a kind, as often as `names` does, in ascending order.
pub open spec fn selected(r: Seq<Seq<char>>, names: Seq<Seq<char>>, kind: Kind) -> bool {
    &&& ascending(r)
    &&& r.to_multiset() == names.filter(|name: Seq<char>| kind.admits(name)).to_multiset()
}

/// A name comes before itself or is equal to it.
pub proof fn lemma_at_most_reflexive(a: Seq<char>)
    ensures
        at_most(a, a),
    decreases a.len(),
{
    if a.len() > 0 {
        lemma_at_most_reflexive(a.skip(1));
    }
}

/// Of two names, one comes before the other or is equal to it.
pub proof fn lemma_at_most_total(a: Seq<char>, b: Seq<char>)
    ensures
        at_most(a, b) || at_most(b, a),
    decreases a.len(),
{
    if a.len() > 0 && b.len() > 0 {
        lemma_at_most_total(a.skip(1), b.skip(1));
    }
}

/// The order of names carries over.
pub proof fn lemma_at_most_transitive(a: Seq<char>, b: Seq<char>, c: Seq<char>)
    requires
        at_most(a, b),
        at_most(b, c),
    ensures
        at_most(a, c),
    decreases a.len(),
{
    if a.len() > 0 && b.len() > 0 && c.len() > 0 && a[0] == b[0] && b[0] == c[0] {
        lemma_at_most_transitive(a.skip(1), b.skip(1), c.skip(1));
    }
}

/// Names that each come before the other, or are equal to it, are equal.
pub proof fn lemma_at_most_antisymmetric(a: Seq<char>, b: Seq<char>)
    requires
        at_most(a, b),
        at_most(b, a),
    ensures
        a == b,
    decreases a.len(),
{
    if a.len() > 0 && b.len() > 0 {
        lemma_at_most_antisymmetric(a.skip(1), b.skip(1));
        assert(a == seq![a[0]] + a.skip(1));
        assert(b == seq![b[0]] + b.skip(1));
    }
}

/// Whether `a` comes before `b` or is equal to it.
fn precedes(a: &[char], b: &[char]) -> (r: bool)
    ensures
        r == at_most(a@, b@),
{
    let mut i: usize = 0;
    assert(a@.skip(0) == a@ && b@.skip(0) == b@);
    while i < a.len() && i < b.len() && a[i] == b[i]
        invariant
            i <= a.len(),
            i <= b.len(),
            at_most(a@, b@) == at_most(a@.skip(i as int), b@.skip(i as int)),
        decreases a.len() - i,
    {
        assert(a@.skip(i as int).skip(1) == a@.skip(i + 1));
        assert(b@.skip(i as int).skip(1) == b@.skip(i + 1));
        i = i + 1;
    }
    if i == a.len() {
        true
    } else if i == b.len() {
        false
    } else {
        a[i] < b[i]
    }
}

/// Whether `s` ends with `suffix`.
fn ends_with(s: &[char], suffix: &[char]) -> (r: bool)
    ensures
        r == suffix@.is_suffix_of(s@),
{
    if s.len() < suffix.len() {
        return false;
    }
    let tail = slice_subrange(s, s.len() - suffix.len(), s.len());
    let r = starts_with(tail, suffix);
    assert(tail@.subrange(0, suffix@.len() as int) == tail@);
    r
}

/// Makes a string of characters.
pub fn string_of(chars: &[char]) -> (r: String)
    ensures
        r@ == chars@,
{
    let mut r = String::new();
    let mut i: usize = 0;
    while i < chars.len()
        invariant
            i <= chars.len(),
            r@ == chars@.take(i as int),
        decreases chars.len() - i,
    {
        assert(chars@.take(i + 1) == chars@.take(i as int).push(chars@[i as int]));
        r.push(chars[i]);
        i = i + 1;
    }
    assert(chars@.take(i as int) == chars@);
    r
}

/// Whether a name is that of a PNG file.
pub fn png_name(name: &str) -> (r: bool)
    ensures
        r == is_png(name@),
{
    let chars = chars_of(name);
    let suffix = chars_of(".png");
    chars.len() > 4 && ends_with(chars.as_slice(), suffix.as_slice())
}

/// Whether a name is that of a file with ASCII art.
pub fn art_name(name: &str) -> (r: bool)
    ensures
        r == is_art(name@),
{
    let chars = chars_of(name);
    let suffix = chars_of(".ascii.txt");
    ends_with(chars.as_slice(), suffix.as_slice())
}

/// Takes the extension off the name of a PNG file.
pub fn file_stem(name: &str) -> (r: String)
    requires
        is_png(name@),
    ensures
        r@ == stem(name@),
{
    let chars = chars_of(name);
    string_of(slice_subrange(chars.as_slice(), 0, chars.len() - 4))
}

/// Takes the extension off the name of a file with ASCII art; where the name holds it more
/// than once, every time.
pub fn art_base(name: &str) -> (r: String)
    ensures
        r@ == without(name@, ".ascii.txt"@),
{
    let chars = chars_of(name);
    let part = chars_of(".ascii.txt");
    proof {
        reveal_strlit(".ascii.txt");
    }
    let mut r = String::new();
    let mut i: usize = 0;
    assert(chars@.skip(0) == chars@);
    assert(r@ + without(chars@, part@) == without(chars@, part@));
    while i < chars.len()
        invariant
            i <= chars.len(),
            part@.len() == 10,
            r@ + without(chars@.skip(i as int), part@) == without(chars@, part@),
        decreases chars.len() - i,
    {
        let rest = slice_subrange(chars.as_slice(), i, chars.len());
        assert(rest@ == chars@.skip(i as int));
        if starts_with(rest, part.as_slice()) {
            assert(rest@.skip(10) == chars@.skip(i + 10));
            i = i + part.len();
        } else {
            let ghost before = r@;
            r.push(chars[i]);
            assert(rest@.skip(1) == chars@.skip(i + 1));
            assert(r@ + without(rest@.skip(1), part@) == before + (seq![rest@[0]] + without(
                rest@.skip(1),
                part@,
            )));
            i = i + 1;
        }
    }
    assert(chars@.skip(i as int) == Seq::<char>::empty());
    assert(r@ + Seq::<char>::empty() == r@);
    r
}

/// Finds where a name belongs in ascending names: behind those that come before it.
fn place(names: &Vec<String>, name: &str) -> (p: usize)
    requires
        ascending(texts(names@)),
    ensures
        p <= names.len(),
        forall|i: int| 0 <= i < p ==> at_most(#[trigger] names[i]@, name@),
        forall|i: int| p <= i < names.len() ==> !at_most(#[trigger] names[i]@, name@),
{
    let ghost t = texts(names@);
    let x = chars_of(name);
    let mut lo: usize = 0;
    let mut hi: usize = names.len();
    while lo < hi
        invariant
            lo <= hi <= names.len(),
            t == texts(names@),
            ascending(t),
            x@ == name@,
            forall|i: int| 0 <= i < lo ==> at_most(#[trigger] names[i]@, name@),
            forall|i: int| hi <= i < names.len() ==> !at_most(#[trigger] names[i]@, name@),
        decreases hi - lo,
    {
        let mid: usize = lo + (hi - lo) / 2;
        let y = chars_of(names[mid].as_str());
        assert(t[mid as int] == names[mid as int]@);
        if precedes(y.as_slice(), x.as_slice()) {
            proof {
                assert forall|i: int| 0 <= i < mid + 1 implies at_most(
                    #[trigger] names[i]@,
                    name@,
                ) by {
                    assert(t[i] == names[i]@);
                    lemma_at_most_transitive(t[i], t[mid as int], name@);
                }
            }
            lo = mid + 1;
        } else {
            proof {
                assert forall|i: int| mid <= i < names.len() implies !at_most(
                    #[trigger] names[i]@,
                    name@,
                ) by {
                    assert(t[i] == names[i]@);
                    if at_most(t[i], name@) {
                        lemma_at_most_transitive(t[mid as int], t[i], name@);
                    }
                }
            }
            hi = mid;
        }
    }
    lo
}

/// Puts a name into ascending names.
fn put(names: &mut Vec<String>, name: String)
    requires
        ascending(texts(old(names)@)),
    ensures
        ascending(texts(final(names)@)),
        texts(final(names)@).to_multiset() == texts(old(names)@).to_multiset().insert(name@),
{
    let p = place(names, name.as_str());
    let ghost (before, x) = (texts(names@), name@);
    names.insert(p, name);
    proof {
        let after = before.insert(p as int, x);
        assert(texts(names@) == after);
        vstd::seq_lib::to_multiset_insert(before, p as int, x);
        assert forall|i: int, j: int| 0 <= i <= j < after.len() implies at_most(
            #[trigger] after[i],
            #[trigger] after[j],
        ) by {
            if i == p && j == p {
                lemma_at_most_reflexive(x);
            } else if j == p {
                assert(after[i] == before[i]);
                assert(old(names)[i]@ == before[i]);
            } else if i == p {
                assert(after[j] == before[j - 1]);
                assert(old(names)[j - 1]@ == before[j - 1]);
                lemma_at_most_total(x, before[j - 1]);
            } else {
                let (k, l) = (if i < p { i } else { i - 1 }, if j < p { j } else { j - 1 });
                assert(after[i] == before[k] && after[j] == before[l]);
            }
        }
    }
}

/// Picks the files of a kind, in ascending order.
fn select(names: &[String], kind: Kind) -> (r: Vec<String>)
    ensures
        selected(texts(r@), texts(names@), kind),
{
    let ghost all = texts(names@);
    let ghost keep = |name: Seq<char>| kind.admits(name);
    let mut r: Vec<String> = Vec::new();
    let mut i: usize = 0;
    assert(all.take(0).filter(keep) == Seq::<Seq<char>>::empty()) by {
        reveal(Seq::filter);
    }
    assert(texts(r@) == Seq::<Seq<char>>::empty());
    while i < names.len()
        invariant
            i <= names.len(),
            all == texts(names@),
            keep == (|name: Seq<char>| kind.admits(name)),
            ascending(texts(r@)),
            texts(r@).to_multiset() == all.take(i as int).filter(keep).to_multiset(),
        decreases names.len() - i,
    {
        let ghost before = all.take(i as int).filter(keep);
        proof {
            lemma_filter_step(all, i as int, keep);
            assert(all[i as int] == names[i as int]@);
            vstd::seq_lib::to_multiset_build(before, all[i as int]);
        }
        let name = names[i].as_str();
        let wanted = match kind {
            Kind::Png => png_name(name),
            Kind::Art => art_name(name),
        };
        if wanted {
            put(&mut r, names[i].clone());
        }
        i = i + 1;
    }
    assert(all.take(i as int) == all);
    r
}

/// Picks the PNG files of a directory, in ascending order.
pub fn select_pngs(names: &[String]) -> (r: Vec<String>)
    ensures
        selected(texts(r@), texts(names@), Kind::Png),
{
    select(names, Kind::Png)
}

/// Picks the files with ASCII art of a directory, in ascending order.
pub fn select_art(names: &[String]) -> (r: Vec<String>)
    ensures
        selected(texts(r@), texts(names@), Kind::Art),
{
    select(names, Kind::Art)
}

/// One name more is filtered by itself.
proof fn lemma_filter_step(s: Seq<Seq<char>>, i: int, keep: spec_fn(Seq<char>) -> bool)
    requires
        0 <= i < s.len(),
    ensures
        s.take(i + 1).filter(keep) == (if keep(s[i]) {
            s.take(i).filter(keep).push(s[i])
        } else {
            s.take(i).filter(keep)
        }),
{
    reveal(Seq::filter);
    assert(s.take(i + 1).drop_last() == s.take(i));
}

/// Selected names are of the kind.
pub proof fn lemma_selected_kind(r: Seq<Seq<char>>, names: Seq<Seq<char>>, kind: Kind)
    requires
        selected(r, names, kind),
    ensures
        forall|i: int| 0 <= i < r.len() ==> kind.admits(#[trigger] r[i]),
{
    let keep = |name: Seq<char>| kind.admits(name);
    let kept = names.filter(keep);
    broadcast use vstd::seq_lib::group_filter_ensures;

    assert forall|i: int| 0 <= i < r.len() implies kind.admits(#[trigger] r[i]) by {
        r.to_multiset_ensures();
        kept.to_multiset_ensures();
        assert(r.contains(r[i]));
        assert(kept.to_multiset().count(r[i]) > 0);
        assert(kept.contains(r[i]));
        let k = choose|k: int| 0 <= k < kept.len() && kept[k] == r[i];
        assert(keep(kept[k]));
    }
}

/// What is selected does not depend on the order in which the names are given.
pub proof fn lemma_selection_is_unique(
    r: Seq<Seq<char>>,
    names: Seq<Seq<char>>,
    r2: Seq<Seq<char>>,
    names2: Seq<Seq<char>>,
    kind: Kind,
)
    requires
        selected(r, names, kind),
        selected(r2, names2, kind),
        names.to_multiset() == names2.to_multiset(),
    ensures
        r == r2,
{
    let keep = |name: Seq<char>| kind.admits(name);
    lemma_filter_multiset(names, keep);
    lemma_filter_multiset(names2, keep);
    let leq = |a: Seq<char>, b: Seq<char>| at_most(a, b);
    assert(vstd::relations::total_ordering(leq)) by {
        assert forall|a: Seq<char>| #[trigger] leq(a, a) by {
            lemma_at_most_reflexive(a);
        }
        assert forall|a: Seq<char>, b: Seq<char>|
            #[trigger] leq(a, b) && #[trigger] leq(b, a) implies a == b by {
            lemma_at_most_antisymmetric(a, b);
        }
        assert forall|a: Seq<char>, b: Seq<char>, c: Seq<char>|
            #[trigger] leq(a, b) && #[trigger] leq(b, c) implies leq(a, c) by {
            lemma_at_most_transitive(a, b, c);
        }
        assert forall|a: Seq<char>, b: Seq<char>| #[trigger] leq(a, b) || #[trigger] leq(b, a) by {
            lemma_at_most_total(a, b);
        }
    }
    vstd::seq_lib::lemma_sorted_unique(r, r2, leq);
}

/// Filtering a sequence filters its multiset.
pub proof fn lemma_filter_multiset(names: Seq<Seq<char>>, keep: spec_fn(Seq<char>) -> bool)
    ensures
        names.filter(keep).to_multiset() == names.to_multiset().filter(keep),
    decreases names.len(),
{
    reveal(Seq::filter);
    broadcast use vstd::multiset::group_multiset_axioms;
    broadcast use vstd::seq_lib::group_to_multiset_ensures;

    if names.len() > 0 {
        let rest = names.drop_last();
        lemma_filter_multiset(rest, keep);
        assert(names == rest.push(names.last()));
        assert(names.to_multiset() == rest.to_multiset().insert(names.last()));
        assert(names.filter(keep).to_multiset() =~= names.to_multiset().filter(keep));
    } else {
        assert(names.filter(keep).to_multiset() =~= names.to_multiset().filter(keep));
    }
}

/// The name that frame `n` has among the extracted ones, with four digits.
pub open spec fn frame_name(n: nat) -> Seq<char> {
    "frame"@ + seq![
        ('0' as nat + n / 10 / 10 / 10) as char,
        ('0' as nat + n / 10 / 10 % 10) as char,
        ('0' as nat + n / 10 % 10) as char,
        ('0' as nat + n % 10) as char,
    ] + ".png"@
}

/// Where two names first differ decides on their order.
proof fn lemma_at_most_at(a: Seq<char>, b: Seq<char>, k: int)
    requires
        0 <= k < a.len(),
        k < b.len(),
        forall|i: int| 0 <= i < k ==> a[i] == b[i],
        a[k] < b[k],
    ensures
        at_most(a, b),
    decreases k,
{
    if k > 0 {
        let (c, d) = (a.skip(1), b.skip(1));
        assert forall|i: int| 0 <= i < k - 1 implies c[i] == d[i] by {
            assert(a[i + 1] == b[i + 1]);
        }
        assert(c[k - 1] == a[k] && d[k - 1] == b[k]);
        lemma_at_most_at(c, d, k - 1);
        assert(a[0] == b[0]);
    }
}

/// Four digits make up a number.
proof fn lemma_four_digits(n: nat)
    requires
        n < 10000,
    ensures
        n / 10 / 10 / 10 < 10,
        n / 10 / 10 % 10 < 10,
        n / 10 % 10 < 10,
        n % 10 < 10,
        n == 1000 * (n / 10 / 10 / 10) + 100 * (n / 10 / 10 % 10) + 10 * (n / 10 % 10) + n % 10,
{
    let a = n / 10;
    let b = a / 10;
    let c = b / 10;
    assert(n == 10 * a + n % 10);
    assert(a == 10 * b + a % 10);
    assert(b == 10 * c + b % 10);
}

/// The characters of the name of a frame.
proof fn lemma_frame_name(n: nat)
    requires
        n < 10000,
    ensures
        frame_name(n).len() == 13,
        frame_name(n).take(5) == "frame"@,
        frame_name(n)[5] as nat == '0' as nat + n / 10 / 10 / 10,
        frame_name(n)[6] as nat == '0' as nat + n / 10 / 10 % 10,
        frame_name(n)[7] as nat == '0' as nat + n / 10 % 10,
        frame_name(n)[8] as nat == '0' as nat + n % 10,
        is_png(frame_name(n)),
{
    reveal_strlit("frame");
    reveal_strlit(".png");
    lemma_four_digits(n);
    assert(frame_name(n).take(5) == "frame"@);
    assert(frame_name(n).subrange(9, 13) == ".png"@);
}

/// Up to 9999 frames are in ascending order by name when they are so by number.
pub proof fn lemma_frames_in_order(m: nat, n: nat)
    requires
        m <= n < 10000,
    ensures
        at_most(frame_name(m), frame_name(n)),
        is_png(frame_name(m)),
{
    let (x, y) = (frame_name(m), frame_name(n));
    lemma_frame_name(m);
    lemma_frame_name(n);
    lemma_four_digits(m);
    lemma_four_digits(n);
    assert forall|i: int| 0 <= i < 5 implies x[i] == y[i] by {
        assert(x[i] == x.take(5)[i] && y[i] == y.take(5)[i]);
    }
    if x[5] != y[5] {
        lemma_at_most_at(x, y, 5);
    } else if x[6] != y[6] {
        lemma_at_most_at(x, y, 6);
    } else if x[7] != y[7] {
        lemma_at_most_at(x, y, 7);
    } else if x[8] != y[8] {
        lemma_at_most_at(x, y, 8);
    } else {
        lemma_at_most_reflexive(x);
    }
}

} // verus!
