//! A map from text to text that keeps its entries in key order.

use vstd::prelude::*;
use vstd::utf8::*;

use crate::text::lemma_encode_injective;

verus! {

/// The contents of a map: the value of each key.
pub type Contents = Map<Seq<char>, Seq<char>>;

/// Key and value of one entry.
pub type EntryView = (Seq<char>, Seq<char>);

/// Whether one byte string comes before another: at the first place where they differ it
/// holds the smaller byte, or it ends there.
pub open spec fn bytes_before(a: Seq<u8>, b: Seq<u8>) -> bool
    decreases a.len(),
{
    if b.len() == 0 {
        false
    } else if a.len() == 0 {
        true
    } else if a[0] == b[0] {
        bytes_before(a.drop_first(), b.drop_first())
    } else {
        a[0] < b[0]
    }
}

/// Whether one text comes before another: texts are ordered by their UTF-8 bytes.
pub open spec fn before(a: Seq<char>, b: Seq<char>) -> bool {
    bytes_before(encode_utf8(a), encode_utf8(b))
}

/// Whether the keys of the entries stand in ascending order, each of them once.
pub open spec fn in_key_order(entries: Seq<EntryView>) -> bool {
    forall|i: int, j: int|
        0 <= i < j < entries.len() ==> before((#[trigger] entries[i]).0, (#[trigger] entries[j]).0)
}

/// Whether texts stand in ascending order, each of them once.
pub open spec fn ascending(texts: Seq<Seq<char>>) -> bool {
    forall|i: int, j: int|
        0 <= i < j < texts.len() ==> before(#[trigger] texts[i], #[trigger] texts[j])
}

/// What a list of entries holds: of two entries with one key the later counts.
pub open spec fn contents_of(entries: Seq<EntryView>) -> Contents
    decreases entries.len(),
{
    if entries.len() == 0 {
        Map::empty()
    } else {
        contents_of(entries.drop_last()).insert(entries.last().0, entries.last().1)
    }
}

/// The entries of a map in key order.
pub open spec fn sorted_entries(contents: Contents) -> Seq<EntryView> {
    choose|entries: Seq<EntryView>| #[trigger]
        in_key_order(entries) && contents_of(entries) == contents
}

/// The keys of a map in ascending order.
pub open spec fn sorted_keys(contents: Contents) -> Seq<Seq<char>> {
    Seq::new(sorted_entries(contents).len(), |i: int| sorted_entries(contents)[i].0)
}

/// The keys and values of a list of entries.
pub open spec fn entry_views(entries: Seq<(String, String)>) -> Seq<EntryView> {
    Seq::new(entries.len(), |i: int| (entries[i].0@, entries[i].1@))
}

// ---------------------------------------------------------------------------------------
// The order
// ---------------------------------------------------------------------------------------

proof fn lemma_bytes_before_irreflexive(a: Seq<u8>)
    ensures
        !bytes_before(a, a),
    decreases a.len(),
{
    if a.len() > 0 {
        lemma_bytes_before_irreflexive(a.drop_first());
    }
}

proof fn lemma_bytes_before_transitive(a: Seq<u8>, b: Seq<u8>, c: Seq<u8>)
    requires
        bytes_before(a, b),
        bytes_before(b, c),
    ensures
        bytes_before(a, c),
    decreases a.len(),
{
    if a.len() > 0 && a[0] == b[0] && b[0] == c[0] {
        lemma_bytes_before_transitive(a.drop_first(), b.drop_first(), c.drop_first());
    }
}

proof fn lemma_bytes_before_total(a: Seq<u8>, b: Seq<u8>)
    ensures
        bytes_before(a, b) || bytes_before(b, a) || a == b,
    decreases a.len(),
{
    if a.len() > 0 && b.len() > 0 && a[0] == b[0] {
        lemma_bytes_before_total(a.drop_first(), b.drop_first());
        if a.drop_first() == b.drop_first() {
            assert(a =~= seq![a[0]] + a.drop_first());
            assert(b =~= seq![b[0]] + b.drop_first());
        }
    } else if a.len() == 0 && b.len() == 0 {
        assert(a =~= b);
    }
}

/// The order of texts is a strict total order.
pub proof fn law_text_order(a: Seq<char>, b: Seq<char>, c: Seq<char>)
    ensures
        !before(a, a),
        before(a, b) && before(b, c) ==> before(a, c),
        before(a, b) ==> !before(b, a),
        before(a, b) || before(b, a) || a == b,
{
    let (x, y, z) = (encode_utf8(a), encode_utf8(b), encode_utf8(c));
    lemma_bytes_before_irreflexive(x);
    if before(a, b) && before(b, c) {
        lemma_bytes_before_transitive(x, y, z);
    }
    if before(a, b) && before(b, a) {
        lemma_bytes_before_transitive(x, y, x);
    }
    lemma_bytes_before_total(x, y);
    if x == y {
        lemma_encode_injective(a, b);
    }
}

/// Texts are ordered by the first byte in which they differ, and a text comes before every
/// longer text that begins with it.
pub proof fn law_first_difference_decides(
    common: Seq<u8>,
    x: u8,
    y: u8,
    a: Seq<u8>,
    b: Seq<u8>,
)
    ensures
        x != y ==> (bytes_before(common + seq![x] + a, common + seq![y] + b) <==> x < y),
        bytes_before(common, common + seq![x] + a),
        !bytes_before(common + seq![x] + a, common),
    decreases common.len(),
{
    let (p, q) = (common + seq![x] + a, common + seq![y] + b);
    if common.len() > 0 {
        let rest = common.drop_first();
        law_first_difference_decides(rest, x, y, a, b);
        assert(p.drop_first() =~= rest + seq![x] + a);
        assert(q.drop_first() =~= rest + seq![y] + b);
        assert(p[0] == common[0] && q[0] == common[0]);
    } else {
        assert(p[0] == x && q[0] == y);
    }
}

proof fn lemma_bytes_before_common(a: Seq<u8>, b: Seq<u8>, n: int)
    requires
        0 <= n <= a.len(),
        n <= b.len(),
        a.take(n) == b.take(n),
    ensures
        bytes_before(a, b) == bytes_before(a.skip(n), b.skip(n)),
    decreases n,
{
    if n == 0 {
        assert(a.skip(0) =~= a);
        assert(b.skip(0) =~= b);
    } else {
        assert(a[0] == a.take(n)[0] && b[0] == b.take(n)[0]);
        assert(a.drop_first().take(n - 1) =~= a.take(n).drop_first());
        assert(b.drop_first().take(n - 1) =~= b.take(n).drop_first());
        lemma_bytes_before_common(a.drop_first(), b.drop_first(), n - 1);
        assert(a.drop_first().skip(n - 1) =~= a.skip(n));
        assert(b.drop_first().skip(n - 1) =~= b.skip(n));
    }
}

/// Whether one text comes before another.
pub fn is_before(a: &str, b: &str) -> (yes: bool)
    ensures
        yes == before(a@, b@),
{
    let x = a.as_bytes();
    let y = b.as_bytes();
    let mut i: usize = 0;
    assert(x@.take(0) =~= y@.take(0));
    while i < x.len() && i < y.len() && x[i] == y[i]
        invariant
            i <= x.len(),
            i <= y.len(),
            x@.take(i as int) == y@.take(i as int),
        decreases x.len() - i,
    {
        assert(x@.take(i + 1) =~= x@.take(i as int).push(x@[i as int]));
        assert(y@.take(i + 1) =~= y@.take(i as int).push(y@[i as int]));
        i = i + 1;
    }
    proof {
        lemma_bytes_before_common(x@, y@, i as int);
    }
    if i == y.len() {
        false
    } else if i == x.len() {
        true
    } else {
        x[i] < y[i]
    }
}

// ---------------------------------------------------------------------------------------
// Entries and contents
// ---------------------------------------------------------------------------------------

/// The contents of a list hold exactly the keys of its entries, finitely many.
pub proof fn lemma_contents_keys(entries: Seq<EntryView>, key: Seq<char>)
    ensures
        contents_of(entries).contains_key(key) <==> exists|i: int|
            0 <= i < entries.len() && (#[trigger] entries[i]).0 == key,
        contents_of(entries).dom().finite(),
    decreases entries.len(),
{
    if entries.len() > 0 {
        let rest = entries.drop_last();
        lemma_contents_keys(rest, key);
        if contents_of(rest).contains_key(key) {
            let i = choose|i: int| 0 <= i < rest.len() && (#[trigger] rest[i]).0 == key;
            assert(entries[i].0 == key);
        }
        if entries.last().0 == key {
            assert(entries[entries.len() - 1].0 == key);
        }
        if exists|i: int| 0 <= i < entries.len() && (#[trigger] entries[i]).0 == key {
            let i = choose|i: int| 0 <= i < entries.len() && (#[trigger] entries[i]).0 == key;
            if i < rest.len() {
                assert(rest[i].0 == key);
            }
        }
    }
}

/// Of two texts that differ first in two ASCII characters, the one with the smaller character
/// comes first, and a text comes before every longer text that begins with it.
pub proof fn law_texts_are_in_the_order_of_their_characters(
    common: Seq<char>,
    x: char,
    y: char,
    a: Seq<char>,
    b: Seq<char>,
)
    requires
        (x as u32) < 0x80,
        (y as u32) < 0x80,
        x != y,
    ensures
        before(common + seq![x] + a, common + seq![y] + b) <==> x < y,
        before(common, common + seq![x] + a),
        !before(common + seq![x] + a, common),
{
    let c = encode_utf8(common);
    let (p, q) = (common + seq![x] + a, common + seq![y] + b);
    crate::text::lemma_encode_concat(common, seq![x]);
    crate::text::lemma_encode_concat(common, seq![y]);
    crate::text::lemma_encode_concat(common + seq![x], a);
    crate::text::lemma_encode_concat(common + seq![y], b);
    crate::text::lemma_encode_ascii(x);
    crate::text::lemma_encode_ascii(y);
    assert(encode_utf8(p) =~= c + seq![x as u8] + encode_utf8(a));
    assert(encode_utf8(q) =~= c + seq![y as u8] + encode_utf8(b));
    law_first_difference_decides(c, x as u8, y as u8, encode_utf8(a), encode_utf8(b));
}

/// Of two entries with one key the later counts, and an entry does not touch other keys.
pub proof fn law_later_entry_counts(
    entries: Seq<EntryView>,
    key: Seq<char>,
    value: Seq<char>,
    other: Seq<char>,
)
    ensures
        ({
            let before = contents_of(entries);
            let after = contents_of(entries.push((key, value)));
            &&& after.contains_key(key) && after[key] == value
            &&& other != key ==> after.contains_key(other) == before.contains_key(other)
            &&& other != key && before.contains_key(other) ==> after[other] == before[other]
        }),
        contents_of(Seq::empty()) == Contents::empty(),
{
    assert(entries.push((key, value)).drop_last() =~= entries);
}

/// In a list in key order, each entry is what the contents hold of its key, and there are
/// as many keys as entries.
pub proof fn lemma_contents_in_order(entries: Seq<EntryView>)
    requires
        in_key_order(entries),
    ensures
        forall|i: int|
            0 <= i < entries.len() ==> contents_of(entries).contains_key((#[trigger] entries[i]).0)
                && contents_of(entries)[entries[i].0] == entries[i].1,
        contents_of(entries).len() == entries.len(),
        contents_of(entries).dom().finite(),
    decreases entries.len(),
{
    if entries.len() > 0 {
        let rest = entries.drop_last();
        let last = entries[entries.len() - 1];
        assert forall|i: int, j: int| 0 <= i < j < rest.len() implies before(
            (#[trigger] rest[i]).0,
            (#[trigger] rest[j]).0,
        ) by {
            assert(before(entries[i].0, entries[j].0));
        }
        lemma_contents_in_order(rest);
        lemma_contents_keys(rest, last.0);
        assert forall|i: int| 0 <= i < rest.len() implies (#[trigger] rest[i]).0 != last.0 by {
            assert(before(entries[i].0, last.0));
            law_text_order(last.0, last.0, last.0);
        }
        assert forall|i: int| 0 <= i < entries.len() implies contents_of(entries).contains_key(
            (#[trigger] entries[i]).0,
        ) && contents_of(entries)[entries[i].0] == entries[i].1 by {
            if i < rest.len() {
                assert(rest[i] == entries[i]);
            }
        }
    }
}

/// Two lists in key order that hold the same contents are the same list.
pub proof fn law_sorted_entries_unique(a: Seq<EntryView>, b: Seq<EntryView>)
    requires
        in_key_order(a),
        in_key_order(b),
        contents_of(a) == contents_of(b),
    ensures
        a == b,
    decreases a.len(),
{
    lemma_contents_in_order(a);
    lemma_contents_in_order(b);
    if a.len() == 0 {
        assert(a =~= b);
    } else {
        let m = contents_of(a);
        let n = a.len() - 1;
        // The greatest key is the same in both.
        lemma_contents_keys(b, a[n].0);
        lemma_contents_keys(a, b[n].0);
        let p = choose|i: int| 0 <= i < b.len() && (#[trigger] b[i]).0 == a[n].0;
        let q = choose|i: int| 0 <= i < a.len() && (#[trigger] a[i]).0 == b[n].0;
        if p < n {
            assert(before(b[p].0, b[n].0));
            if q < n {
                assert(before(a[q].0, a[n].0));
            }
            law_text_order(a[n].0, b[n].0, a[n].0);
        }
        assert(a[n].0 == b[n].0);
        assert(m[a[n].0] == a[n].1 && m[b[n].0] == b[n].1);
        let (x, y) = (a.drop_last(), b.drop_last());
        assert forall|i: int, j: int| 0 <= i < j < x.len() implies before(
            (#[trigger] x[i]).0,
            (#[trigger] x[j]).0,
        ) by {
            assert(before(a[i].0, a[j].0));
        }
        assert forall|i: int, j: int| 0 <= i < j < y.len() implies before(
            (#[trigger] y[i]).0,
            (#[trigger] y[j]).0,
        ) by {
            assert(before(b[i].0, b[j].0));
        }
        let key = a[n].0;
        lemma_contents_keys(x, key);
        lemma_contents_keys(y, key);
        assert(!contents_of(x).contains_key(key)) by {
            assert forall|i: int| 0 <= i < x.len() implies (#[trigger] x[i]).0 != key by {
                assert(before(a[i].0, a[n].0));
                law_text_order(key, key, key);
            }
        }
        assert(!contents_of(y).contains_key(key)) by {
            assert forall|i: int| 0 <= i < y.len() implies (#[trigger] y[i]).0 != key by {
                assert(before(b[i].0, b[n].0));
                law_text_order(key, key, key);
            }
        }
        assert(contents_of(x) =~= m.remove(key));
        assert(contents_of(y) =~= m.remove(key));
        law_sorted_entries_unique(x, y);
        assert(a =~= x.push(a[n]));
        assert(b =~= y.push(b[n]));
    }
}

/// A list in key order is the list of the sorted entries of its contents.
pub proof fn lemma_sorted_entries(entries: Seq<EntryView>)
    requires
        in_key_order(entries),
    ensures
        sorted_entries(contents_of(entries)) == entries,
        ascending(sorted_keys(contents_of(entries))),
        sorted_keys(contents_of(entries)).len() == entries.len(),
{
    let other = sorted_entries(contents_of(entries));
    assert(in_key_order(other) && contents_of(other) == contents_of(entries));
    law_sorted_entries_unique(entries, other);
    let keys = sorted_keys(contents_of(entries));
    assert forall|i: int, j: int| 0 <= i < j < keys.len() implies before(
        #[trigger] keys[i],
        #[trigger] keys[j],
    ) by {
        assert(before(entries[i].0, entries[j].0));
    }
}

/// Putting an entry with a new key in its place adds it to the contents.
proof fn lemma_insert_new(entries: Seq<EntryView>, at: int, entry: EntryView)
    requires
        in_key_order(entries),
        0 <= at <= entries.len(),
        forall|i: int| 0 <= i < at ==> before((#[trigger] entries[i]).0, entry.0),
        forall|i: int| at <= i < entries.len() ==> before(entry.0, (#[trigger] entries[i]).0),
    ensures
        in_key_order(entries.insert(at, entry)),
        contents_of(entries.insert(at, entry)) == contents_of(entries).insert(entry.0, entry.1),
        !contents_of(entries).contains_key(entry.0),
{
    let longer = entries.insert(at, entry);
    assert forall|i: int, j: int| 0 <= i < j < longer.len() implies before(
        (#[trigger] longer[i]).0,
        (#[trigger] longer[j]).0,
    ) by {
        let x = if i < at { i } else { i - 1 };
        let y = if j < at { j } else { j - 1 };
        if i != at && j != at {
            assert(before(entries[x].0, entries[y].0));
        }
    }
    lemma_contents_in_order(entries);
    lemma_contents_in_order(longer);
    lemma_contents_keys(entries, entry.0);
    assert forall|i: int| 0 <= i < entries.len() implies (#[trigger] entries[i]).0 != entry.0 by {
        law_text_order(entry.0, entry.0, entry.0);
    }
    let a = contents_of(longer);
    let b = contents_of(entries).insert(entry.0, entry.1);
    assert forall|key: Seq<char>| #[trigger] a.contains_key(key) <==> b.contains_key(key) by {
        lemma_contents_keys(longer, key);
        lemma_contents_keys(entries, key);
        if a.contains_key(key) && key != entry.0 {
            let i = choose|i: int| 0 <= i < longer.len() && (#[trigger] longer[i]).0 == key;
            let x = if i < at { i } else { i - 1 };
            assert(longer[i] == entries[x]);
        }
        if b.contains_key(key) {
            if key == entry.0 {
                assert(longer[at].0 == key);
            } else {
                let i = choose|i: int| 0 <= i < entries.len() && (#[trigger] entries[i]).0 == key;
                let x = if i < at { i } else { i + 1 };
                assert(longer[x] == entries[i]);
            }
        }
    }
    assert forall|key: Seq<char>| #[trigger] a.contains_key(key) implies a[key] == b[key] by {
        lemma_contents_keys(longer, key);
        let i = choose|i: int| 0 <= i < longer.len() && (#[trigger] longer[i]).0 == key;
        let x = if i < at { i } else { i - 1 };
        if i != at {
            assert(longer[i] == entries[x]);
        } else {
            assert(longer[at] == entry);
        }
    }
    assert(a =~= b);
}

/// Where a key belongs among entries in key order.
proof fn lemma_place(entries: Seq<EntryView>, key: Seq<char>) -> (at: int)
    requires
        in_key_order(entries),
        forall|i: int| 0 <= i < entries.len() ==> (#[trigger] entries[i]).0 != key,
    ensures
        0 <= at <= entries.len(),
        forall|i: int| 0 <= i < at ==> before((#[trigger] entries[i]).0, key),
        forall|i: int| at <= i < entries.len() ==> before(key, (#[trigger] entries[i]).0),
    decreases entries.len(),
{
    if entries.len() == 0 {
        0
    } else {
        let rest = entries.drop_last();
        let last = entries[entries.len() - 1].0;
        law_text_order(last, key, key);
        if before(last, key) {
            assert forall|i: int| 0 <= i < entries.len() implies before(
                (#[trigger] entries[i]).0,
                key,
            ) by {
                if i < entries.len() - 1 {
                    law_text_order(entries[i].0, last, key);
                }
            }
            entries.len() as int
        } else {
            assert forall|i: int, j: int| 0 <= i < j < rest.len() implies before(
                (#[trigger] rest[i]).0,
                (#[trigger] rest[j]).0,
            ) by {
                assert(rest[i] == entries[i] && rest[j] == entries[j]);
            }
            assert forall|i: int| 0 <= i < rest.len() implies (#[trigger] rest[i]).0 != key by {
                assert(rest[i] == entries[i]);
            }
            let at = lemma_place(rest, key);
            assert forall|i: int| 0 <= i < at implies before((#[trigger] entries[i]).0, key) by {
                assert(rest[i] == entries[i]);
            }
            assert forall|i: int| at <= i < entries.len() implies before(
                key,
                (#[trigger] entries[i]).0,
            ) by {
                if i < rest.len() {
                    assert(rest[i] == entries[i]);
                }
            }
            at
        }
    }
}

/// Every finite map has its entries in key order.
pub proof fn lemma_entries_of_map(contents: Contents)
    requires
        contents.dom().finite(),
    ensures
        in_key_order(sorted_entries(contents)),
        contents_of(sorted_entries(contents)) == contents,
    decreases contents.dom().len(),
{
    if contents.dom().len() == 0 {
        let none = Seq::<EntryView>::empty();
        assert(contents =~= Map::empty());
        assert(in_key_order(none) && contents_of(none) == contents);
    } else {
        let key = contents.dom().choose();
        let rest = contents.remove(key);
        lemma_entries_of_map(rest);
        let entries = sorted_entries(rest);
        assert forall|i: int| 0 <= i < entries.len() implies (#[trigger] entries[i]).0 != key by {
            lemma_contents_keys(entries, entries[i].0);
        }
        let at = lemma_place(entries, key);
        lemma_insert_new(entries, at, (key, contents[key]));
        let longer = entries.insert(at, (key, contents[key]));
        assert(rest.insert(key, contents[key]) =~= contents);
        assert(in_key_order(longer) && contents_of(longer) == contents);
    }
}

/// Giving an entry another value changes that value in the contents.
proof fn lemma_replace_value(entries: Seq<EntryView>, at: int, value: Seq<char>)
    requires
        in_key_order(entries),
        0 <= at < entries.len(),
    ensures
        in_key_order(entries.update(at, (entries[at].0, value))),
        contents_of(entries.update(at, (entries[at].0, value))) == contents_of(entries).insert(
            entries[at].0,
            value,
        ),
{
    let other = entries.update(at, (entries[at].0, value));
    assert forall|i: int, j: int| 0 <= i < j < other.len() implies before(
        (#[trigger] other[i]).0,
        (#[trigger] other[j]).0,
    ) by {
        assert(before(entries[i].0, entries[j].0));
    }
    lemma_contents_in_order(entries);
    lemma_contents_in_order(other);
    let a = contents_of(other);
    let b = contents_of(entries).insert(entries[at].0, value);
    assert forall|key: Seq<char>| #[trigger] a.contains_key(key) <==> b.contains_key(key) by {
        lemma_contents_keys(other, key);
        lemma_contents_keys(entries, key);
        if a.contains_key(key) {
            let i = choose|i: int| 0 <= i < other.len() && (#[trigger] other[i]).0 == key;
            assert(entries[i].0 == key);
        }
        if b.contains_key(key) {
            assert(contents_of(entries).contains_key(entries[at].0));
            let i = choose|i: int| 0 <= i < entries.len() && (#[trigger] entries[i]).0 == key;
            assert(other[i].0 == key);
        }
    }
    assert forall|key: Seq<char>| #[trigger] a.contains_key(key) implies a[key] == b[key] by {
        lemma_contents_keys(other, key);
        let i = choose|i: int| 0 <= i < other.len() && (#[trigger] other[i]).0 == key;
        assert(entries[i].0 == key);
        if key == entries[at].0 && i != at {
            law_text_order(key, key, key);
            if i < at {
                assert(before(entries[i].0, entries[at].0));
            } else {
                assert(before(entries[at].0, entries[i].0));
            }
        }
        assert(other[i].1 == a[key]);
    }
    assert(a =~= b);
}

/// Taking an entry out removes its key from the contents.
proof fn lemma_remove_entry(entries: Seq<EntryView>, at: int)
    requires
        in_key_order(entries),
        0 <= at < entries.len(),
    ensures
        in_key_order(entries.remove(at)),
        contents_of(entries.remove(at)) == contents_of(entries).remove(entries[at].0),
{
    let shorter = entries.remove(at);
    assert forall|i: int, j: int| 0 <= i < j < shorter.len() implies before(
        (#[trigger] shorter[i]).0,
        (#[trigger] shorter[j]).0,
    ) by {
        let x = if i < at { i } else { i + 1 };
        let y = if j < at { j } else { j + 1 };
        assert(before(entries[x].0, entries[y].0));
    }
    let entry = entries[at];
    assert(shorter.insert(at, entry) =~= entries);
    assert forall|i: int| 0 <= i < at implies before((#[trigger] shorter[i]).0, entry.0) by {
        assert(before(entries[i].0, entries[at].0));
    }
    assert forall|i: int| at <= i < shorter.len() implies before(entry.0, (#[trigger] shorter[i]).0) by {
        assert(before(entries[at].0, entries[i + 1].0));
    }
    lemma_insert_new(shorter, at, entry);
    assert(contents_of(entries).remove(entry.0) =~= contents_of(shorter));
}

// ---------------------------------------------------------------------------------------
// The map
// ---------------------------------------------------------------------------------------

/// A map from text to text. Its entries are kept in key order, each key once.
#[derive(Debug)]
pub struct TextMap {
    entries: Vec<(String, String)>,
}

impl View for TextMap {
    type V = Contents;

    closed spec fn view(&self) -> Contents {
        contents_of(entry_views(self.entries@))
    }
}

impl TextMap {
    #[verifier::type_invariant]
    spec fn well_formed(self) -> bool {
        in_key_order(entry_views(self.entries@))
    }

    /// An empty map.
    #[must_use]
    pub fn new() -> (map: TextMap)
        ensures
            map@ == Contents::empty(),
    {
        let map = TextMap { entries: Vec::new() };
        assert(entry_views(map.entries@) =~= Seq::empty());
        map
    }

    /// The number of keys.
    #[must_use]
    pub fn len(&self) -> (count: usize)
        ensures
            count == self@.len(),
            self@.dom().finite(),
    {
        proof {
            use_type_invariant(self);
            lemma_contents_in_order(entry_views(self.entries@));
        }
        self.entries.len()
    }

    /// The place of a key: where it stands, or where it would have to be put.
    fn position(&self, key: &str) -> (found: (bool, usize))
        ensures
            found.0 == self@.contains_key(key@),
            found.1 <= self.entries@.len(),
            found.0 ==> found.1 < self.entries@.len() && self.entries@[found.1 as int].0@ == key@
                && self.entries@[found.1 as int].1@ == self@[key@],
            !found.0 ==> forall|i: int|
                0 <= i < found.1 ==> before((#[trigger] entry_views(self.entries@)[i]).0, key@),
            !found.0 ==> forall|i: int|
                found.1 <= i < self.entries@.len() ==> before(
                    key@,
                    (#[trigger] entry_views(self.entries@)[i]).0,
                ),
    {
        let ghost all = entry_views(self.entries@);
        proof {
            use_type_invariant(self);
            lemma_contents_in_order(all);
            lemma_contents_keys(all, key@);
        }
        let mut low: usize = 0;
        let mut high: usize = self.entries.len();
        while low < high
            invariant
                low <= high <= self.entries@.len(),
                all == entry_views(self.entries@),
                in_key_order(all),
                contents_of(all) == self@,
                forall|i: int|
                    0 <= i < all.len() ==> contents_of(all).contains_key((#[trigger] all[i]).0)
                        && contents_of(all)[all[i].0] == all[i].1,
                forall|i: int| 0 <= i < low ==> before((#[trigger] all[i]).0, key@),
                forall|i: int| high <= i < all.len() ==> before(key@, (#[trigger] all[i]).0),
            decreases high - low,
        {
            let middle: usize = low + (high - low) / 2;
            let entry = &self.entries[middle];
            assert(all[middle as int].0 == entry.0@);
            if is_before(entry.0.as_str(), key) {
                assert forall|i: int| 0 <= i < middle + 1 implies before((#[trigger] all[i]).0, key@) by {
                    if i < middle {
                        assert(before(all[i].0, all[middle as int].0));
                        law_text_order(all[i].0, all[middle as int].0, key@);
                    }
                }
                low = middle + 1;
            } else if is_before(key, entry.0.as_str()) {
                assert forall|i: int| middle <= i < all.len() implies before(
                    key@,
                    (#[trigger] all[i]).0,
                ) by {
                    if middle < i {
                        assert(before(all[middle as int].0, all[i].0));
                        law_text_order(key@, all[middle as int].0, all[i].0);
                    }
                }
                high = middle;
            } else {
                proof {
                    law_text_order(key@, entry.0@, key@);
                }
                return (true, middle);
            }
        }
        proof {
            if contents_of(all).contains_key(key@) {
                let i = choose|i: int| 0 <= i < all.len() && (#[trigger] all[i]).0 == key@;
                law_text_order(key@, key@, key@);
            }
        }
        (false, low)
    }

    /// Whether the map holds a key.
    #[must_use]
    pub fn contains_key(&self, key: &str) -> (held: bool)
        ensures
            held == self@.contains_key(key@),
    {
        self.position(key).0
    }

    /// The value of a key.
    #[must_use]
    pub fn get(&self, key: &str) -> (value: Option<&String>)
        ensures
            value is Some <==> self@.contains_key(key@),
            value is Some ==> value->0@ == self@[key@],
    {
        let (found, at) = self.position(key);
        if found {
            Some(&self.entries[at].1)
        } else {
            None
        }
    }

    /// Gives a key a value; hands back the value that it had.
    pub fn insert(&mut self, key: String, value: String) -> (replaced: Option<String>)
        ensures
            final(self)@ == old(self)@.insert(key@, value@),
            replaced is Some <==> old(self)@.contains_key(key@),
            replaced is Some ==> replaced->0@ == old(self)@[key@],
    {
        proof {
            use_type_invariant(&*self);
        }
        let (found, at) = self.position(key.as_str());
        let ghost all = entry_views(self.entries@);
        let mut entries: Vec<(String, String)> = Vec::new();
        assert(entry_views(entries@) =~= Seq::empty());
        std::mem::swap(&mut entries, &mut self.entries);
        if found {
            let ghost key_view = entries@[at as int].0@;
            let ghost value_view = value@;
            let entry = entries.remove(at);
            let (stored_key, old_value) = entry;
            entries.insert(at, (stored_key, value));
            proof {
                lemma_replace_value(all, at as int, value_view);
                assert(entry_views(entries@) =~= all.update(at as int, (key_view, value_view)));
            }
            self.entries = entries;
            Some(old_value)
        } else {
            let ghost entry = (key@, value@);
            entries.insert(at, (key, value));
            proof {
                lemma_insert_new(all, at as int, entry);
                assert(entry_views(entries@) =~= all.insert(at as int, entry));
            }
            self.entries = entries;
            None
        }
    }

    /// Takes a key out; hands back the value that it had.
    pub fn remove(&mut self, key: &str) -> (removed: Option<String>)
        ensures
            final(self)@ == old(self)@.remove(key@),
            removed is Some <==> old(self)@.contains_key(key@),
            removed is Some ==> removed->0@ == old(self)@[key@],
    {
        proof {
            use_type_invariant(&*self);
        }
        let (found, at) = self.position(key);
        let ghost all = entry_views(self.entries@);
        if found {
            let mut entries: Vec<(String, String)> = Vec::new();
            assert(entry_views(entries@) =~= Seq::empty());
            std::mem::swap(&mut entries, &mut self.entries);
            let entry = entries.remove(at);
            proof {
                lemma_remove_entry(all, at as int);
                assert(entry_views(entries@) =~= all.remove(at as int));
            }
            self.entries = entries;
            Some(entry.1)
        } else {
            assert(self@.remove(key@) =~= self@);
            None
        }
    }

    /// The keys, in ascending order.
    #[must_use]
    pub fn keys(&self) -> (keys: Vec<String>)
        ensures
            crate::text::views(keys@) == sorted_keys(self@),
            ascending(crate::text::views(keys@)),
    {
        let ghost all = entry_views(self.entries@);
        proof {
            use_type_invariant(self);
            lemma_sorted_entries(all);
        }
        let mut keys: Vec<String> = Vec::new();
        let mut i: usize = 0;
        while i < self.entries.len()
            invariant
                i <= self.entries@.len(),
                keys@.len() == i,
                forall|j: int| 0 <= j < i ==> (#[trigger] keys@[j])@ == self.entries@[j].0@,
            decreases self.entries@.len() - i,
        {
            keys.push(self.entries[i].0.clone());
            i = i + 1;
        }
        assert(crate::text::views(keys@) =~= sorted_keys(self@));
        keys
    }

    /// The entries, in key order.
    #[must_use]
    pub fn entries(&self) -> (entries: Vec<(String, String)>)
        ensures
            entry_views(entries@) == sorted_entries(self@),
            in_key_order(entry_views(entries@)),
            contents_of(entry_views(entries@)) == self@,
    {
        let ghost all = entry_views(self.entries@);
        proof {
            use_type_invariant(self);
            lemma_sorted_entries(all);
        }
        let mut entries: Vec<(String, String)> = Vec::new();
        let mut i: usize = 0;
        while i < self.entries.len()
            invariant
                i <= self.entries@.len(),
                entries@.len() == i,
                forall|j: int|
                    0 <= j < i ==> (#[trigger] entries@[j]).0@ == self.entries@[j].0@
                        && entries@[j].1@ == self.entries@[j].1@,
            decreases self.entries@.len() - i,
        {
            entries.push((self.entries[i].0.clone(), self.entries[i].1.clone()));
            i = i + 1;
        }
        assert(entry_views(entries@) =~= all);
        entries
    }

    /// The map that a list of entries holds: of two entries with one key the later counts.
    #[must_use]
    pub fn from_entries(entries: Vec<(String, String)>) -> (map: TextMap)
        ensures
            map@ == contents_of(entry_views(entries@)),
    {
        let mut map = TextMap::new();
        let ghost all = entry_views(entries@);
        let mut i: usize = 0;
        while i < entries.len()
            invariant
                i <= entries@.len(),
                all == entry_views(entries@),
                map@ == contents_of(all.take(i as int)),
            decreases entries@.len() - i,
        {
            let _ = map.insert(entries[i].0.clone(), entries[i].1.clone());
            proof {
                assert(all.take(i + 1).drop_last() =~= all.take(i as int));
                assert(all.take(i + 1).last() == all[i as int]);
            }
            i = i + 1;
        }
        assert(all.take(all.len() as int) =~= all);
        map
    }

    /// Takes all keys out.
    pub fn clear(&mut self)
        ensures
            final(self)@ == Contents::empty(),
    {
        let entries: Vec<(String, String)> = Vec::new();
        assert(entry_views(entries@) =~= Seq::empty());
        self.entries = entries;
    }
}

} // verus!
