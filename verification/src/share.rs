//! The files a share holds in memory, by name, kept in the order in which a
//! listing names them.

use vstd::prelude::*;
use vstd::utf8::{encode_utf8, encode_utf8_decode_utf8};

verus! {

/// The bytes `a` come before the bytes `b` in a dictionary.
pub open spec fn bytes_precede(a: Seq<u8>, b: Seq<u8>) -> bool
    decreases a.len(),
{
    if b.len() == 0 {
        false
    } else if a.len() == 0 {
        true
    } else if a[0] != b[0] {
        a[0] < b[0]
    } else {
        bytes_precede(a.drop_first(), b.drop_first())
    }
}

/// The name `a` is listed before the name `b`: names are in the order of their
/// UTF-8.
pub open spec fn precedes(a: Seq<char>, b: Seq<char>) -> bool {
    bytes_precede(encode_utf8(a), encode_utf8(b))
}

proof fn lemma_bytes_irreflexive(a: Seq<u8>)
    ensures
        !bytes_precede(a, a),
    decreases a.len(),
{
    if a.len() > 0 {
        lemma_bytes_irreflexive(a.drop_first());
    }
}

proof fn lemma_bytes_transitive(a: Seq<u8>, b: Seq<u8>, c: Seq<u8>)
    requires
        bytes_precede(a, b),
        bytes_precede(b, c),
    ensures
        bytes_precede(a, c),
    decreases a.len(),
{
    if a.len() > 0 && b.len() > 0 && c.len() > 0 && a[0] == b[0] && b[0] == c[0] {
        lemma_bytes_transitive(a.drop_first(), b.drop_first(), c.drop_first());
    }
}

proof fn lemma_bytes_total(a: Seq<u8>, b: Seq<u8>)
    ensures
        bytes_precede(a, b) || bytes_precede(b, a) || a == b,
    decreases a.len(),
{
    if a.len() > 0 && b.len() > 0 && a[0] == b[0] {
        lemma_bytes_total(a.drop_first(), b.drop_first());
        if a.drop_first() == b.drop_first() {
            assert(a =~= seq![a[0]] + a.drop_first());
            assert(b =~= seq![b[0]] + b.drop_first());
        }
    } else if a.len() == 0 && b.len() == 0 {
        assert(a =~= b);
    }
}

/// The order of names is strict and total: of two different names exactly one
/// is listed before the other.
pub proof fn law_names_are_ordered(a: Seq<char>, b: Seq<char>, c: Seq<char>)
    ensures
        !precedes(a, a),
        precedes(a, b) && precedes(b, c) ==> precedes(a, c),
        a != b ==> precedes(a, b) || precedes(b, a),
        !(precedes(a, b) && precedes(b, a)),
{
    lemma_bytes_irreflexive(encode_utf8(a));
    if precedes(a, b) && precedes(b, c) {
        lemma_bytes_transitive(encode_utf8(a), encode_utf8(b), encode_utf8(c));
    }
    if precedes(a, b) && precedes(b, a) {
        lemma_bytes_transitive(encode_utf8(a), encode_utf8(b), encode_utf8(a));
    }
    lemma_bytes_total(encode_utf8(a), encode_utf8(b));
    encode_utf8_decode_utf8(a);
    encode_utf8_decode_utf8(b);
}

/// `names` are in the order of a listing, each once.
pub open spec fn ordered(names: Seq<Seq<char>>) -> bool {
    forall|i: int, j: int| 0 <= i < j < names.len() ==> precedes(#[trigger] names[i], #[trigger] names[j])
}

/// `names` lists `files`: each of them once, in order, and nothing else.
pub open spec fn lists(names: Seq<Seq<char>>, files: Map<Seq<char>, Seq<u8>>) -> bool {
    &&& ordered(names)
    &&& forall|name: Seq<char>| #[trigger] names.contains(name) <==> files.dom().contains(name)
}

/// The listing of `files`.
pub open spec fn listing(files: Map<Seq<char>, Seq<u8>>) -> Seq<Seq<char>> {
    choose|names: Seq<Seq<char>>| lists(names, files)
}

/// There is only one listing of the same files.
pub proof fn law_listing_is_unique(
    a: Seq<Seq<char>>,
    b: Seq<Seq<char>>,
    files: Map<Seq<char>, Seq<u8>>,
)
    requires
        lists(a, files),
        lists(b, files),
    ensures
        a == b,
        listing(files) == a,
{
    lemma_same_listing(a, b);
    lemma_same_listing(listing(files), a);
}

proof fn lemma_same_listing(a: Seq<Seq<char>>, b: Seq<Seq<char>>)
    requires
        ordered(a),
        ordered(b),
        forall|name: Seq<char>| #[trigger] a.contains(name) <==> b.contains(name),
    ensures
        a == b,
    decreases a.len(),
{
    if a.len() == 0 {
        if b.len() > 0 {
            assert(b.contains(b[0]));
            assert(a.contains(b[0]));
        }
        assert(a =~= b);
    } else {
        let last = a.last();
        assert(a.contains(last));
        assert(b.contains(last));
        let other = b.last();
        assert(b.contains(other));
        assert(a.contains(other));
        let i = choose|i: int| 0 <= i < a.len() && a[i] == other;
        let j = choose|j: int| 0 <= j < b.len() && b[j] == last;
        if last != other {
            assert(precedes(a[i], a[a.len() - 1]));
            assert(precedes(b[j], b[b.len() - 1]));
            law_names_are_ordered(last, other, last);
        }
        let shorter = a.drop_last();
        let other_shorter = b.drop_last();
        assert forall|name: Seq<char>| #[trigger] shorter.contains(name) implies other_shorter.contains(
            name,
        ) by {
            let k = choose|k: int| 0 <= k < shorter.len() && shorter[k] == name;
            assert(a[k] == name);
            assert(a.contains(name));
            assert(precedes(a[k], a[a.len() - 1]));
            law_names_are_ordered(name, name, name);
            let m = choose|m: int| 0 <= m < b.len() && b[m] == name;
            assert(m < b.len() - 1);
            assert(other_shorter[m] == name);
        }
        assert forall|name: Seq<char>| #[trigger] other_shorter.contains(name) implies shorter.contains(
            name,
        ) by {
            let k = choose|k: int| 0 <= k < other_shorter.len() && other_shorter[k] == name;
            assert(b[k] == name);
            assert(b.contains(name));
            assert(precedes(b[k], b[b.len() - 1]));
            law_names_are_ordered(name, name, name);
            assert(a.contains(name));
            let m = choose|m: int| 0 <= m < a.len() && a[m] == name;
            assert(m < a.len() - 1);
            assert(shorter[m] == name);
        }
        lemma_same_listing(shorter, other_shorter);
        assert(a =~= shorter.push(last));
        assert(b =~= other_shorter.push(other));
    }
}

proof fn lemma_place(names: Seq<Seq<char>>, name: Seq<char>) -> (place: int)
    requires
        ordered(names),
        !names.contains(name),
    ensures
        0 <= place <= names.len(),
        forall|i: int| 0 <= i < place ==> precedes(#[trigger] names[i], name),
        forall|i: int| place <= i < names.len() ==> precedes(name, #[trigger] names[i]),
    decreases names.len(),
{
    if names.len() == 0 {
        0
    } else {
        let last = names.last();
        assert(names.contains(last));
        law_names_are_ordered(name, last, name);
        if precedes(last, name) {
            assert forall|i: int| 0 <= i < names.len() implies precedes(#[trigger] names[i], name) by {
                if i < names.len() - 1 {
                    assert(precedes(names[i], names[names.len() - 1]));
                    law_names_are_ordered(names[i], last, name);
                }
            }
            names.len() as int
        } else {
            let shorter = names.drop_last();
            assert forall|other: Seq<char>| shorter.contains(other) implies names.contains(other) by {
                let i = choose|i: int| 0 <= i < shorter.len() && shorter[i] == other;
                assert(names[i] == other);
            }
            let place = lemma_place(shorter, name);
            assert forall|i: int| 0 <= i < place implies precedes(#[trigger] names[i], name) by {
                assert(shorter[i] == names[i]);
            }
            assert forall|i: int| place <= i < names.len() implies precedes(
                name,
                #[trigger] names[i],
            ) by {
                if i < names.len() - 1 {
                    assert(shorter[i] == names[i]);
                }
            }
            place
        }
    }
}

/// Any finite number of files has a listing.
pub proof fn law_files_are_listed(files: Map<Seq<char>, Seq<u8>>)
    requires
        files.dom().finite(),
    ensures
        lists(listing(files), files),
    decreases files.dom().len(),
{
    if files.dom().len() == 0 {
        let none = Seq::<Seq<char>>::empty();
        assert(files.dom() =~= Set::empty());
        assert(lists(none, files));
    } else {
        let name = files.dom().choose();
        let fewer = files.remove(name);
        assert(fewer.dom() =~= files.dom().remove(name));
        law_files_are_listed(fewer);
        let rest = listing(fewer);
        assert(!rest.contains(name));
        let place = lemma_place(rest, name);
        let names = rest.insert(place, name);
        assert forall|i: int, j: int| 0 <= i < j < names.len() implies precedes(
            #[trigger] names[i],
            #[trigger] names[j],
        ) by {
            let k = if i < place { i } else { i - 1 };
            let m = if j < place { j } else { j - 1 };
            if i != place && j != place {
                assert(names[i] == rest[k] && names[j] == rest[m]);
                assert(precedes(rest[k], rest[m]));
            } else if i == place {
                assert(names[j] == rest[m]);
            } else {
                assert(names[i] == rest[k]);
            }
        }
        assert forall|other: Seq<char>| #[trigger] names.contains(other) implies files.dom().contains(
            other,
        ) by {
            let i = choose|i: int| 0 <= i < names.len() && names[i] == other;
            if i != place {
                let k = if i < place { i } else { i - 1 };
                assert(rest[k] == other);
                assert(rest.contains(other));
            }
        }
        assert forall|other: Seq<char>| files.dom().contains(other) implies #[trigger] names.contains(
            other,
        ) by {
            if other == name {
                assert(names[place] == name);
            } else {
                assert(fewer.dom().contains(other));
                assert(rest.contains(other));
                let k = choose|k: int| 0 <= k < rest.len() && rest[k] == other;
                let i = if k < place { k } else { k + 1 };
                assert(names[i] == other);
            }
        }
        assert(lists(names, files));
    }
}

/// How two names stand to each other in a listing.
enum Order {
    Before,
    Same,
    After,
}

fn order_of(a: &str, b: &str) -> (order: Order)
    ensures
        match order {
            Order::Before => precedes(a@, b@),
            Order::Same => a@ == b@,
            Order::After => precedes(b@, a@),
        },
{
    let x = a.as_bytes();
    let y = b.as_bytes();
    let mut at: usize = 0;
    proof {
        encode_utf8_decode_utf8(a@);
        encode_utf8_decode_utf8(b@);
        assert(x@.skip(0) =~= x@);
        assert(y@.skip(0) =~= y@);
    }
    while at < x.len() && at < y.len()
        invariant
            at <= x@.len(),
            at <= y@.len(),
            bytes_precede(x@, y@) == bytes_precede(x@.skip(at as int), y@.skip(at as int)),
            bytes_precede(y@, x@) == bytes_precede(y@.skip(at as int), x@.skip(at as int)),
            forall|i: int| 0 <= i < at ==> x@[i] == y@[i],
        ensures
            at <= x@.len(),
            at <= y@.len(),
            bytes_precede(x@, y@) == bytes_precede(x@.skip(at as int), y@.skip(at as int)),
            bytes_precede(y@, x@) == bytes_precede(y@.skip(at as int), x@.skip(at as int)),
            forall|i: int| 0 <= i < at ==> x@[i] == y@[i],
            at == x@.len() || at == y@.len() || x@[at as int] != y@[at as int],
        decreases x.len() - at,
    {
        if x[at] != y[at] {
            break;
        }
        assert(x@.skip(at as int).drop_first() =~= x@.skip(at + 1));
        assert(y@.skip(at as int).drop_first() =~= y@.skip(at + 1));
        at = at + 1;
    }
    if at == x.len() && at == y.len() {
        assert(x@ =~= y@);
        Order::Same
    } else if at == x.len() || (at < y.len() && x[at] < y[at]) {
        Order::Before
    } else {
        Order::After
    }
}

struct Entry {
    name: String,
    bytes: Vec<u8>,
}

/// Files by name, in the order in which a listing names them.
pub struct Files {
    entries: Vec<Entry>,
}

impl View for Files {
    type V = Map<Seq<char>, Seq<u8>>;

    closed spec fn view(&self) -> Map<Seq<char>, Seq<u8>> {
        Map::new(
            |name: Seq<char>| self.names_model().contains(name),
            |name: Seq<char>| self.entries@[self.names_model().index_of(name)].bytes@,
        )
    }
}

impl Files {
    closed spec fn names_model(&self) -> Seq<Seq<char>> {
        Seq::new(self.entries@.len(), |i: int| self.entries@[i].name@)
    }

    /// The files are in order, each name once.
    pub closed spec fn wf(&self) -> bool {
        ordered(self.names_model())
    }

    proof fn lemma_lists(&self)
        requires
            self.wf(),
        ensures
            lists(self.names_model(), self@),
            forall|i: int|
                0 <= i < self.entries@.len() ==> self@.dom().contains(
                    (#[trigger] self.entries@[i]).name@,
                ) && self@[self.entries@[i].name@] == self.entries@[i].bytes@,
    {
        let names = self.names_model();
        assert forall|i: int| 0 <= i < self.entries@.len() implies self@.dom().contains(
            (#[trigger] self.entries@[i]).name@,
        ) && self@[self.entries@[i].name@] == self.entries@[i].bytes@ by {
            let name = names[i];
            assert(names.contains(name));
            let k = names.index_of(name);
            assert(names[k] == name);
            law_names_are_ordered(name, name, name);
            if k < i {
                assert(precedes(names[k], names[i]));
            } else if i < k {
                assert(precedes(names[i], names[k]));
            }
        }
    }

    /// There are finitely many files, so that they have a listing.
    pub proof fn law_files_are_finite(&self)
        requires
            self.wf(),
        ensures
            self@.dom().finite(),
    {
        let names = self.names_model();
        self.lemma_lists();
        vstd::seq_lib::seq_to_set_is_finite(names);
        assert(names.to_set() =~= self@.dom());
    }

    /// No files.
    pub fn new() -> (files: Self)
        ensures
            files.wf(),
            files@ == Map::<Seq<char>, Seq<u8>>::empty(),
    {
        let files = Files { entries: Vec::new() };
        assert(files@ =~= Map::<Seq<char>, Seq<u8>>::empty());
        files
    }

    /// Where `name` stands or belongs, and whether it is there.
    fn find(&self, name: &str) -> (place: (usize, bool))
        requires
            self.wf(),
        ensures
            place.0 <= self.entries@.len(),
            forall|i: int| 0 <= i < place.0 ==> precedes(self.entries@[i].name@, name@),
            place.1 ==> place.0 < self.entries@.len() && self.entries@[place.0 as int].name@
                == name@,
            !place.1 ==> forall|i: int|
                place.0 <= i < self.entries@.len() ==> precedes(name@, self.entries@[i].name@),
    {
        let mut at: usize = 0;
        while at < self.entries.len()
            invariant
                self.wf(),
                at <= self.entries@.len(),
                forall|i: int| 0 <= i < at ==> precedes(self.entries@[i].name@, name@),
            decreases self.entries@.len() - at,
        {
            match order_of(&self.entries[at].name, name) {
                Order::Before => {},
                Order::Same => return (at, true),
                Order::After => {
                    proof {
                        let names = self.names_model();
                        assert forall|i: int| at <= i < self.entries@.len() implies precedes(
                            name@,
                            self.entries@[i].name@,
                        ) by {
                            assert(names[at as int] == self.entries@[at as int].name@);
                            assert(names[i] == self.entries@[i].name@);
                            law_names_are_ordered(name@, names[at as int], names[i]);
                        }
                    }
                    return (at, false);
                },
            }
            at = at + 1;
        }
        (at, false)
    }

    proof fn lemma_absent(&self, name: Seq<char>, at: int)
        requires
            0 <= at <= self.entries@.len(),
            forall|i: int| 0 <= i < at ==> precedes(self.entries@[i].name@, name),
            forall|i: int|
                at <= i < self.entries@.len() ==> precedes(name, self.entries@[i].name@),
        ensures
            !self@.dom().contains(name),
    {
        law_names_are_ordered(name, name, name);
        if self.names_model().contains(name) {
            let i = choose|i: int| 0 <= i < self.names_model().len() && self.names_model()[i] == name;
            assert(self.entries@[i].name@ == name);
        }
    }

    /// True where there is a file of this name.
    pub fn contains(&self, name: &str) -> (found: bool)
        requires
            self.wf(),
        ensures
            found == self@.dom().contains(name@),
    {
        let (at, found) = self.find(name);
        proof {
            self.lemma_lists();
            if found {
                assert(self@.dom().contains(self.entries@[at as int].name@));
            } else {
                self.lemma_absent(name@, at as int);
            }
        }
        found
    }

    /// The bytes of the file of this name, if there is one.
    pub fn get(&self, name: &str) -> (bytes: Option<&Vec<u8>>)
        requires
            self.wf(),
        ensures
            match bytes {
                Some(bytes) => self@.dom().contains(name@) && bytes@ == self@[name@],
                None => !self@.dom().contains(name@),
            },
    {
        let (at, found) = self.find(name);
        proof {
            self.lemma_lists();
        }
        if found {
            assert(self@.dom().contains(self.entries@[at as int].name@));
            Some(&self.entries[at].bytes)
        } else {
            proof {
                self.lemma_absent(name@, at as int);
            }
            None
        }
    }

    /// Put `bytes` under `name`, in place of what was there.
    #[verifier::rlimit(50)]
    pub fn insert(&mut self, name: String, bytes: Vec<u8>)
        requires
            old(self).wf(),
        ensures
            final(self).wf(),
            final(self)@ == old(self)@.insert(name@, bytes@),
    {
        let (at, found) = self.find(&name);
        let ghost text = name@;
        let ghost content = bytes@;
        let ghost before = self.entries@;
        proof {
            self.lemma_lists();
            if !found {
                self.lemma_absent(text, at as int);
            }
        }
        let entry = Entry { name, bytes };
        if found {
            self.entries[at] = entry;
        } else {
            self.entries.insert(at, entry);
        }
        proof {
            let names = self.names_model();
            let old_names = old(self).names_model();
            if found {
                assert(names =~= old_names);
            } else {
                assert(names =~= old_names.insert(at as int, text));
                assert forall|i: int, j: int| 0 <= i < j < names.len() implies precedes(
                    #[trigger] names[i],
                    #[trigger] names[j],
                ) by {
                    if i < at && j == at {
                        assert(precedes(before[i].name@, text));
                    } else if i == at && j > at {
                        assert(precedes(text, before[j - 1].name@));
                    } else {
                        let k = if i < at { i } else { i - 1 };
                        let m = if j < at { j } else { j - 1 };
                        assert(precedes(old_names[k], old_names[m]));
                    }
                }
            }
            self.lemma_lists();
            let model = old(self)@.insert(text, content);
            assert forall|n: Seq<char>| self@.dom().contains(n) == model.dom().contains(n) by {
                if self@.dom().contains(n) {
                    let i = choose|i: int| 0 <= i < names.len() && names[i] == n;
                    assert(self.entries@[i].name@ == n);
                    if n != text {
                        let k = if found || i < at { i } else { i - 1 };
                        assert(before[k].name@ == n);
                    }
                }
                if old(self)@.dom().contains(n) {
                    let i = choose|i: int| 0 <= i < old_names.len() && old_names[i] == n;
                    let k = if found || i < at { i } else { i + 1 };
                    assert(before[i].name@ == n);
                    assert(self.entries@[k].name@ == n);
                }
                assert(self.entries@[at as int].name@ == text);
            }
            assert forall|n: Seq<char>| self@.dom().contains(n) implies self@[n] == model[n] by {
                let i = choose|i: int| 0 <= i < names.len() && names[i] == n;
                assert(self.entries@[i].name@ == n);
                if i == at {
                    assert(self.entries@[at as int].bytes@ == content);
                } else {
                    let k = if found || i < at { i } else { i - 1 };
                    assert(before[k].name@ == n);
                    assert(old(self)@[n] == before[k].bytes@);
                    law_names_are_ordered(n, n, n);
                    assert(names[at as int] == text);
                    if i < at {
                        assert(precedes(names[i], names[at as int]));
                    } else {
                        assert(precedes(names[at as int], names[i]));
                    }
                }
            }
            assert(self@ =~= model);
        }
    }

    /// Take the file of this name away: its bytes, if there was one.
    pub fn remove(&mut self, name: &str) -> (bytes: Option<Vec<u8>>)
        requires
            old(self).wf(),
        ensures
            final(self).wf(),
            final(self)@ == old(self)@.remove(name@),
            match bytes {
                Some(bytes) => old(self)@.dom().contains(name@) && bytes@ == old(self)@[name@],
                None => !old(self)@.dom().contains(name@),
            },
    {
        let (at, found) = self.find(name);
        let ghost before = self.entries@;
        proof {
            self.lemma_lists();
            if !found {
                self.lemma_absent(name@, at as int);
                assert(self@.remove(name@) =~= self@);
            }
        }
        if found {
            let entry = self.entries.remove(at);
            proof {
                let names = self.names_model();
                let old_names = old(self).names_model();
                assert(names =~= old_names.remove(at as int));
                assert forall|i: int, j: int| 0 <= i < j < names.len() implies precedes(
                    #[trigger] names[i],
                    #[trigger] names[j],
                ) by {
                    let k = if i < at { i } else { i + 1 };
                    let m = if j < at { j } else { j + 1 };
                    assert(precedes(old_names[k], old_names[m]));
                }
                self.lemma_lists();
                let model = old(self)@.remove(name@);
                assert forall|n: Seq<char>| self@.dom().contains(n) == model.dom().contains(n) by {
                    if self@.dom().contains(n) {
                        let i = choose|i: int| 0 <= i < names.len() && names[i] == n;
                        let k = if i < at { i } else { i + 1 };
                        assert(before[k].name@ == n);
                        assert(old_names[k] == n);
                        assert(old_names[at as int] == name@);
                        law_names_are_ordered(n, n, n);
                        if k < at {
                            assert(precedes(old_names[k], old_names[at as int]));
                        } else {
                            assert(precedes(old_names[at as int], old_names[k]));
                        }
                    }
                    if model.dom().contains(n) {
                        let i = choose|i: int| 0 <= i < old_names.len() && old_names[i] == n;
                        assert(i != at);
                        let k = if i < at { i } else { i - 1 };
                        assert(self.entries@[k].name@ == n);
                    }
                }
                assert forall|n: Seq<char>| self@.dom().contains(n) implies self@[n] == model[n] by {
                    let i = choose|i: int| 0 <= i < names.len() && names[i] == n;
                    let k = if i < at { i } else { i + 1 };
                    assert(model.dom().contains(n));
                    assert(self.entries@[i].name@ == n);
                    assert(before[k].name@ == n);
                    assert(old(self)@[n] == before[k].bytes@);
                }
                assert(self@ =~= model);
            }
            Some(entry.bytes)
        } else {
            None
        }
    }

    /// The names of the files, in order.
    pub fn names(&self) -> (names: Vec<String>)
        requires
            self.wf(),
        ensures
            names.deep_view() == listing(self@),
            lists(names.deep_view(), self@),
    {
        let mut names: Vec<String> = Vec::new();
        let mut at: usize = 0;
        while at < self.entries.len()
            invariant
                at <= self.entries@.len(),
                names.deep_view() =~= self.names_model().take(at as int),
            decreases self.entries@.len() - at,
        {
            let ghost before = names.deep_view();
            let name = self.entries[at].name.clone();
            names.push(name);
            assert(names.deep_view() =~= before.push(self.names_model()[at as int]));
            at = at + 1;
        }
        proof {
            assert(self.names_model().take(at as int) =~= self.names_model());
            self.lemma_lists();
            law_listing_is_unique(names.deep_view(), names.deep_view(), self@);
        }
        names
    }

    /// How many files there are.
    pub fn len(&self) -> (count: usize)
        requires
            self.wf(),
        ensures
            self@.dom().finite(),
            count == self@.dom().len(),
    {
        proof {
            let names = self.names_model();
            self.lemma_lists();
            assert forall|i: int, j: int|
                0 <= i < names.len() && 0 <= j < names.len() && i != j implies names[i]
                != names[j] by {
                law_names_are_ordered(names[i], names[j], names[i]);
                if i < j {
                    assert(precedes(names[i], names[j]));
                } else {
                    assert(precedes(names[j], names[i]));
                }
            }
            names.unique_seq_to_set();
            assert(names.to_set() =~= self@.dom());
        }
        self.entries.len()
    }

    /// True where there is no file.
    pub fn is_empty(&self) -> (empty: bool)
        requires
            self.wf(),
        ensures
            empty == (self@ == Map::<Seq<char>, Seq<u8>>::empty()),
    {
        proof {
            self.lemma_lists();
            if self.entries@.len() == 0 {
                assert(self@ =~= Map::<Seq<char>, Seq<u8>>::empty());
            } else {
                assert(self@.dom().contains(self.entries@[0].name@));
            }
        }
        self.entries.len() == 0
    }
}

/// Names are in the order of their UTF-8, byte by byte: one comes before another
/// where it is its beginning, or has the smaller byte where the two first differ.
pub proof fn law_bytes_are_in_the_order_of_a_dictionary(
    before: Seq<u8>,
    a: Seq<u8>,
    b: Seq<u8>,
)
    ensures
        bytes_precede(before + a, before + b) == bytes_precede(a, b),
        bytes_precede(Seq::empty(), b) <==> b.len() > 0,
        !bytes_precede(a, Seq::empty()),
        a.len() > 0 && b.len() > 0 && a[0] < b[0] ==> bytes_precede(a, b),
        a.len() > 0 && b.len() > 0 && a[0] > b[0] ==> !bytes_precede(a, b),
    decreases before.len(),
{
    if before.len() == 0 {
        assert(before + a =~= a);
        assert(before + b =~= b);
    } else {
        let rest = before.drop_first();
        law_bytes_are_in_the_order_of_a_dictionary(rest, a, b);
        assert((before + a).drop_first() =~= rest + a);
        assert((before + b).drop_first() =~= rest + b);
    }
}

/// Names are in the order of their UTF-8.
pub proof fn law_names_are_in_the_order_of_their_bytes(a: Seq<char>, b: Seq<char>)
    ensures
        precedes(a, b) == bytes_precede(encode_utf8(a), encode_utf8(b)),
{
}

} // verus!
