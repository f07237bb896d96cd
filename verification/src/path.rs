//! Byte paths and sets of them.
use vstd::prelude::*;

use crate::normal;
use crate::normal::{DOT, SEPARATOR};

verus! {

/// A path as the kernel knows it: a string of bytes in no particular encoding, in normal form.
#[derive(Debug)]
pub struct Path {
    bytes: Vec<u8>,
}

impl View for Path {
    type V = Seq<u8>;

    closed spec fn view(&self) -> Seq<u8> {
        self.bytes@
    }
}

/// Tells whether the bytes are UTF-8, and gives the string that they are.
///
/// Calls `std::str::from_utf8`. It succeeds just where the bytes are valid UTF-8, and the string
/// is then what they decode to.
#[verifier::external_body]
fn utf8_str(bytes: &[u8]) -> (text: Option<&str>)
    ensures
        text is Some <==> vstd::utf8::valid_utf8(bytes@),
        text matches Some(t) ==> t@ == vstd::utf8::decode_utf8(bytes@),
{
    std::str::from_utf8(bytes).ok()
}

/// The contents of a list of byte strings.
spec fn strings(list: Seq<Vec<u8>>) -> Seq<Seq<u8>> {
    list.map_values(|one: Vec<u8>| one@)
}

/// The first `len` bytes.
fn prefix(bytes: &Vec<u8>, len: usize) -> (front: Vec<u8>)
    requires
        len <= bytes@.len(),
    ensures
        front@ == bytes@.take(len as int),
{
    let mut front: Vec<u8> = Vec::new();
    let mut i: usize = 0;
    while i < len
        invariant
            i <= len <= bytes@.len(),
            front@ == bytes@.take(i as int),
        decreases len - i,
    {
        front.push(bytes[i]);
        proof {
            assert(bytes@.take(i + 1) == bytes@.take(i as int).push(bytes@[i as int]));
        }
        i = i + 1;
    }
    front
}

/// Whether the bytes from `start` on are exactly `..`.
fn ends_in_parent(bytes: &Vec<u8>, start: usize) -> (yes: bool)
    requires
        start <= bytes@.len(),
    ensures
        yes == (bytes@.skip(start as int) == seq![DOT, DOT]),
{
    let yes = bytes.len() - start == 2 && bytes[start] == DOT && bytes[start + 1] == DOT;
    proof {
        let tail = bytes@.skip(start as int);
        if yes {
            assert(tail =~= seq![DOT, DOT]);
        } else if tail == seq![DOT, DOT] {
            assert(tail.len() == 2 && tail[0] == DOT && tail[1] == DOT);
        }
    }
    yes
}

/// The position of the last separator.
fn last_separator(bytes: &Vec<u8>) -> (at: Option<usize>)
    ensures
        match at {
            Some(i) => i < bytes@.len() && i == normal::last_separator_of(bytes@),
            None => normal::last_separator_of(bytes@) == -1,
        },
{
    let mut i: usize = bytes.len();
    proof {
        assert(bytes@.take(i as int) == bytes@);
    }
    while i > 0
        invariant
            i <= bytes@.len(),
            normal::last_separator_of(bytes@.take(i as int)) == normal::last_separator_of(bytes@),
        decreases i,
    {
        proof {
            assert(bytes@.take(i as int).drop_last() == bytes@.take(i - 1));
        }
        i = i - 1;
        if bytes[i] == SEPARATOR {
            return Some(i);
        }
    }
    None
}

/// Follows one more part of a path.
fn follow(absolute: bool, way: &mut Vec<Vec<u8>>, part: Vec<u8>)
    ensures
        strings(final(way)@) == normal::follow(absolute, strings(old(way)@), part@),
{
    let ghost before = strings(way@);
    let parent = ends_in_parent(&part, 0);
    let here = part.len() == 1 && part[0] == DOT;
    proof {
        assert(part@.skip(0) =~= part@);
        if here {
            assert(part@ =~= seq![DOT]);
        } else if part@ == seq![DOT] {
            assert(part@.len() == 1 && part@[0] == DOT);
        }
    }
    if part.len() == 0 || here {
    } else if parent {
        let len: usize = way.len();
        proof {
            if len > 0 {
                assert(before.last() == way@[len - 1]@);
                assert(way@[len - 1]@.skip(0) =~= way@[len - 1]@);
            }
        }
        if len > 0 && !ends_in_parent(&way[len - 1], 0) {
            way.pop();
            proof {
                assert(strings(way@) =~= before.drop_last());
            }
        } else if !absolute {
            way.push(part);
            proof {
                assert(strings(way@) =~= before.push(part@));
            }
        }
    } else {
        way.push(part);
        proof {
            assert(strings(way@) =~= before.push(part@));
        }
    }
}

/// Writes down the path that leads the given way.
fn spell(absolute: bool, way: &Vec<Vec<u8>>) -> (bytes: Vec<u8>)
    ensures
        bytes@ == normal::spelled(absolute, strings(way@)),
{
    let ghost all = strings(way@);
    let mut bytes: Vec<u8> = Vec::new();
    if absolute {
        bytes.push(SEPARATOR);
    } else if way.len() == 0 {
        bytes.push(DOT);
        proof {
            assert(bytes@ =~= seq![DOT]);
        }
        return bytes;
    }
    let ghost start = bytes@;
    proof {
        assert(start =~= if absolute {
            seq![SEPARATOR]
        } else {
            Seq::empty()
        });
        assert(start + normal::join(all.take(0)) =~= start);
    }
    let mut i: usize = 0;
    while i < way.len()
        invariant
            i <= way@.len(),
            all == strings(way@),
            bytes@ == start + normal::join(all.take(i as int)),
        decreases way@.len() - i,
    {
        let ghost before = bytes@;
        if i > 0 {
            bytes.push(SEPARATOR);
        }
        let mut part = prefix(&way[i], way[i].len());
        proof {
            assert(part@ =~= all[i as int]);
            assert(all.take(i + 1).drop_last() =~= all.take(i as int));
            assert(all.take(i + 1).last() == all[i as int]);
        }
        bytes.append(&mut part);
        proof {
            assert(bytes@ =~= start + normal::join(all.take(i + 1)));
        }
        i = i + 1;
    }
    proof {
        assert(all.take(way@.len() as int) =~= all);
        assert(bytes@ =~= normal::spelled(absolute, all));
    }
    bytes
}

impl Path {
    #[verifier::type_invariant]
    spec fn normal(self) -> bool {
        normal::normalized(self.bytes@) == self.bytes@
    }

    /// The path that `bytes` spells, in normal form.
    pub fn new(bytes: Vec<u8>) -> (path: Path)
        ensures
            path@ == normal::normalized(bytes@),
    {
        let absolute = bytes.len() > 0 && bytes[0] == SEPARATOR;
        let mut way: Vec<Vec<u8>> = Vec::new();
        let mut part: Vec<u8> = Vec::new();
        let mut i: usize = 0;
        proof {
            assert(bytes@.take(0) =~= Seq::empty());
            assert(normal::split(bytes@.take(0)).drop_last() =~= Seq::empty());
            assert(strings(way@) =~= Seq::empty());
            assert(part@ =~= Seq::empty());
        }
        while i < bytes.len()
            invariant
                i <= bytes@.len(),
                normal::split(bytes@.take(i as int)).len() > 0,
                strings(way@) == normal::resolve(
                    absolute,
                    normal::split(bytes@.take(i as int)).drop_last(),
                ),
                part@ == normal::split(bytes@.take(i as int)).last(),
            decreases bytes@.len() - i,
        {
            let ghost pieces = normal::split(bytes@.take(i as int));
            let ghost next = normal::split(bytes@.take(i + 1));
            proof {
                assert(bytes@.take(i + 1).drop_last() =~= bytes@.take(i as int));
                assert(bytes@.take(i + 1).last() == bytes@[i as int]);
            }
            if bytes[i] == SEPARATOR {
                follow(absolute, &mut way, part);
                part = Vec::new();
                proof {
                    assert(next.drop_last() =~= pieces);
                    assert(part@ =~= Seq::empty());
                }
            } else {
                part.push(bytes[i]);
                proof {
                    assert(next.drop_last() =~= pieces.drop_last());
                }
            }
            i = i + 1;
        }
        follow(absolute, &mut way, part);
        let bytes_in_form = spell(absolute, &way);
        proof {
            assert(bytes@.take(i as int) =~= bytes@);
            normal::law_normal_form(bytes@);
        }
        Path { bytes: bytes_in_form }
    }

    /// The bytes of the path.
    pub fn as_vec(&self) -> (bytes: &Vec<u8>)
        ensures
            bytes@ == self@,
            normal::normalized(bytes@) == bytes@,
    {
        proof {
            use_type_invariant(self);
        }
        &self.bytes
    }

    /// The path as a string, where it is one.
    pub fn as_str(&self) -> (text: Option<&str>)
        ensures
            text is Some <==> vstd::utf8::valid_utf8(self@),
            text matches Some(t) ==> t@ == vstd::utf8::decode_utf8(self@),
    {
        utf8_str(self.bytes.as_slice())
    }

    /// The path of the directory that holds this one.
    pub fn dir_path(&self) -> (dir: Path)
        ensures
            dir@ == normal::dir_of(self@),
    {
        proof {
            use_type_invariant(self);
            normal::law_dir_is_normal(self@);
            assert(self@.skip(0) == self@);
        }
        match last_separator(&self.bytes) {
            None => {
                if ends_in_parent(&self.bytes, 0) {
                    self.clone()
                } else {
                    let bytes = vec![DOT];
                    proof {
                        assert(bytes@ =~= seq![DOT]);
                    }
                    Path { bytes }
                }
            },
            Some(cut) => {
                proof {
                    assert(cut < self.bytes.len());
                }
                if cut == 0 {
                    let bytes = vec![SEPARATOR];
                    proof {
                        assert(bytes@ =~= seq![SEPARATOR]);
                    }
                    Path { bytes }
                } else if ends_in_parent(&self.bytes, cut + 1) {
                    self.clone()
                } else {
                    Path { bytes: prefix(&self.bytes, cut) }
                }
            },
        }
    }
}

impl Clone for Path {
    fn clone(&self) -> (path: Path)
        ensures
            path@ == self@,
    {
        proof {
            use_type_invariant(self);
            assert(self@.take(self@.len() as int) == self@);
        }
        Path { bytes: prefix(&self.bytes, self.bytes.len()) }
    }
}

impl PartialEq for Path {
    fn eq(&self, other: &Path) -> (same: bool) {
        if self.bytes.len() != other.bytes.len() {
            return false;
        }
        let mut i: usize = 0;
        while i < self.bytes.len()
            invariant
                i <= self@.len(),
                self@.len() == other@.len(),
                forall|j: int| 0 <= j < i ==> self@[j] == other@[j],
            decreases self@.len() - i,
        {
            if self.bytes[i] != other.bytes[i] {
                return false;
            }
            i = i + 1;
        }
        proof {
            assert(self@ =~= other@);
        }
        true
    }
}

impl vstd::std_specs::cmp::PartialEqSpecImpl for Path {
    open spec fn obeys_eq_spec() -> bool {
        true
    }

    open spec fn eq_spec(&self, other: &Path) -> bool {
        self@ == other@
    }
}

impl Eq for Path {

}

/// A set of paths. Each of its paths is kept once.
#[derive(Debug)]
pub struct PathSet {
    paths: Vec<Path>,
}

/// The contents of a list of paths.
pub open spec fn contents(paths: Seq<Path>) -> Seq<Seq<u8>> {
    paths.map_values(|path: Path| path@)
}

/// Whether a list names each path of a set once, and no other.
pub open spec fn lists(paths: Seq<Path>, set: Set<Seq<u8>>) -> bool {
    &&& forall|i: int| 0 <= i < paths.len() ==> set.contains((#[trigger] paths[i])@)
    &&& forall|path: Seq<u8>| #[trigger]
        set.contains(path) ==> exists|i: int| 0 <= i < paths.len() && (#[trigger] paths[i])@ == path
    &&& forall|i: int, j: int|
        0 <= i < j < paths.len() ==> (#[trigger] paths[i])@ != (#[trigger] paths[j])@
}

/// A list without repetitions names each path of the set of its contents once, and no other.
pub proof fn law_lists(paths: Seq<Path>, set: Set<Seq<u8>>)
    requires
        contents(paths).no_duplicates(),
        contents(paths).to_set() == set,
    ensures
        lists(paths, set),
{
    let all = contents(paths);
    assert forall|i: int| 0 <= i < paths.len() implies set.contains((#[trigger] paths[i])@) by {
        assert(all[i] == paths[i]@);
        assert(all.to_set().contains(all[i]));
    }
    assert forall|path: Seq<u8>| #[trigger] set.contains(path) implies exists|i: int|
        0 <= i < paths.len() && (#[trigger] paths[i])@ == path by {
        assert(all.to_set().contains(path));
        let i = choose|i: int| 0 <= i < all.len() && all[i] == path;
        assert(paths[i]@ == path);
    }
    assert forall|i: int, j: int| 0 <= i < j < paths.len() implies (#[trigger] paths[i])@ != (
    #[trigger] paths[j])@ by {
        assert(all[i] != all[j]);
    }
}

impl View for PathSet {
    type V = Set<Seq<u8>>;

    closed spec fn view(&self) -> Set<Seq<u8>> {
        contents(self.paths@).to_set()
    }
}

impl PathSet {
    #[verifier::type_invariant]
    spec fn distinct(self) -> bool {
        contents(self.paths@).no_duplicates()
    }

    pub fn new() -> (set: PathSet)
        ensures
            set@ == Set::<Seq<u8>>::empty(),
    {
        let paths: Vec<Path> = Vec::new();
        proof {
            assert(contents(paths@) =~= Seq::<Seq<u8>>::empty());
            assert(contents(paths@).to_set() =~= Set::<Seq<u8>>::empty());
        }
        PathSet { paths }
    }

    /// Whether `path` is in the set.
    pub fn contains(&self, path: &Path) -> (yes: bool)
        ensures
            yes == self@.contains(path@),
    {
        let mut i: usize = 0;
        while i < self.paths.len()
            invariant
                i <= self.paths@.len(),
                forall|j: int| 0 <= j < i ==> contents(self.paths@)[j] != path@,
            decreases self.paths@.len() - i,
        {
            if self.paths[i] == *path {
                proof {
                    assert(contents(self.paths@)[i as int] == path@);
                }
                return true;
            }
            i = i + 1;
        }
        false
    }

    /// Adds `path`, and says whether it was new.
    pub fn insert(&mut self, path: Path) -> (new: bool)
        ensures
            final(self)@ == old(self)@.insert(path@),
            new == !old(self)@.contains(path@),
    {
        if self.contains(&path) {
            proof {
                assert(self@.insert(path@) =~= self@);
            }
            return false;
        }
        proof {
            use_type_invariant(&*self);
        }
        let ghost before = contents(self.paths@);
        let mut paths: Vec<Path> = Vec::new();
        proof {
            assert(contents(paths@).no_duplicates());
        }
        std::mem::swap(&mut paths, &mut self.paths);
        paths.push(path);
        proof {
            let after = contents(paths@);
            assert(after =~= before.push(path@));
            assert(!before.contains(path@));
            before.lemma_push_to_set_commute(path@);
        }
        self.paths = paths;
        true
    }

    /// The paths of the set, each of them once.
    pub fn to_vec(&self) -> (paths: Vec<Path>)
        ensures
            contents(paths@).no_duplicates(),
            contents(paths@).to_set() == self@,
            lists(paths@, self@),
    {
        proof {
            use_type_invariant(self);
        }
        let mut paths: Vec<Path> = Vec::new();
        let mut i: usize = 0;
        while i < self.paths.len()
            invariant
                i <= self.paths@.len(),
                paths@.len() == i,
                forall|j: int| 0 <= j < i ==> paths@[j]@ == self.paths@[j]@,
            decreases self.paths@.len() - i,
        {
            paths.push(self.paths[i].clone());
            i = i + 1;
        }
        proof {
            assert(contents(paths@) =~= contents(self.paths@));
            law_lists(paths@, self@);
        }
        paths
    }
}

impl Clone for PathSet {
    fn clone(&self) -> (set: PathSet)
        ensures
            set@ == self@,
    {
        let paths = self.to_vec();
        PathSet { paths }
    }
}

} // verus!
