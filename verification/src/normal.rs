//! The normal form of paths.
//!
//! A path is a list of parts between separators. Its normal form has no empty part, no `.` and no
//! `..` but at the front of a relative path, and is therefore the same for all spellings of one
//! path.
use vstd::prelude::*;

verus! {

/// The byte `/`.
pub const SEPARATOR: u8 = 47;

/// The byte `.`.
pub const DOT: u8 = 46;

/// The pieces of `bytes` between separators, empty ones included.
pub open spec fn split(bytes: Seq<u8>) -> Seq<Seq<u8>>
    decreases bytes.len(),
{
    if bytes.len() == 0 {
        seq![Seq::empty()]
    } else {
        let parts = split(bytes.drop_last());
        if bytes.last() == SEPARATOR {
            parts.push(Seq::empty())
        } else {
            parts.drop_last().push(parts.last().push(bytes.last()))
        }
    }
}

/// The parts with a separator between each two of them.
pub open spec fn join(parts: Seq<Seq<u8>>) -> Seq<u8>
    decreases parts.len(),
{
    if parts.len() == 0 {
        Seq::empty()
    } else if parts.len() == 1 {
        parts[0]
    } else {
        join(parts.drop_last()) + seq![SEPARATOR] + parts.last()
    }
}

/// Where `part` leads from the place that the parts `way` have led to. An empty part and `.` lead
/// nowhere, and `..` leads back. Above the root there is only the root.
pub open spec fn follow(absolute: bool, way: Seq<Seq<u8>>, part: Seq<u8>) -> Seq<Seq<u8>> {
    if part.len() == 0 || part == seq![DOT] {
        way
    } else if part == seq![DOT, DOT] {
        if way.len() > 0 && way.last() != seq![DOT, DOT] {
            way.drop_last()
        } else if absolute {
            way
        } else {
            way.push(part)
        }
    } else {
        way.push(part)
    }
}

/// Where the parts lead, one after the other.
pub open spec fn resolve(absolute: bool, parts: Seq<Seq<u8>>) -> Seq<Seq<u8>>
    decreases parts.len(),
{
    if parts.len() == 0 {
        Seq::empty()
    } else {
        follow(absolute, resolve(absolute, parts.drop_last()), parts.last())
    }
}

/// Whether a path starts at the root.
pub open spec fn is_absolute(bytes: Seq<u8>) -> bool {
    bytes.len() > 0 && bytes[0] == SEPARATOR
}

/// The path that leads the given way.
pub open spec fn spelled(absolute: bool, way: Seq<Seq<u8>>) -> Seq<u8> {
    if absolute {
        seq![SEPARATOR] + join(way)
    } else if way.len() == 0 {
        seq![DOT]
    } else {
        join(way)
    }
}

/// The normal form of a path.
pub open spec fn normalized(bytes: Seq<u8>) -> Seq<u8> {
    spelled(is_absolute(bytes), resolve(is_absolute(bytes), split(bytes)))
}

/// The position of the last separator of `path`, or -1 where it has none.
pub open spec fn last_separator_of(path: Seq<u8>) -> int
    decreases path.len(),
{
    if path.len() == 0 {
        -1
    } else if path.last() == SEPARATOR {
        path.len() - 1
    } else {
        last_separator_of(path.drop_last())
    }
}

/// The path of the directory that holds `path`.
///
/// A path without a separator lies in `.`, and a path whose last component is `..` is its own
/// directory.
pub open spec fn dir_of(path: Seq<u8>) -> Seq<u8> {
    let cut = last_separator_of(path);
    if cut < 0 {
        if path == seq![DOT, DOT] {
            path
        } else {
            seq![DOT]
        }
    } else if cut == 0 {
        seq![SEPARATOR]
    } else if path.skip(cut + 1) == seq![DOT, DOT] {
        path
    } else {
        path.take(cut)
    }
}

/// Whether a part is a name: not empty, not `.`, and without a separator. `..` counts as a name.
pub open spec fn is_name(part: Seq<u8>) -> bool {
    part.len() > 0 && part != seq![DOT] && !part.contains(SEPARATOR)
}

/// Whether the parts are those of a normal form: names, with `..` only at the front, and there
/// only where the path is relative.
pub open spec fn is_way(absolute: bool, way: Seq<Seq<u8>>) -> bool {
    forall|i: int|
        #![trigger way[i]]
        0 <= i < way.len() ==> is_name(way[i]) && (way[i] == seq![DOT, DOT] ==> !absolute && (i == 0
            || way[i - 1] == seq![DOT, DOT]))
}

proof fn lemma_split_nonempty(bytes: Seq<u8>)
    ensures
        split(bytes).len() > 0,
    decreases bytes.len(),
{
    if bytes.len() > 0 {
        lemma_split_nonempty(bytes.drop_last());
    }
}

/// No piece holds a separator.
proof fn lemma_split_pieces(bytes: Seq<u8>)
    ensures
        forall|i: int|
            0 <= i < split(bytes).len() ==> !(#[trigger] split(bytes)[i]).contains(SEPARATOR),
    decreases bytes.len(),
{
    if bytes.len() > 0 {
        let parts = split(bytes.drop_last());
        lemma_split_nonempty(bytes.drop_last());
        lemma_split_pieces(bytes.drop_last());
        assert(!parts[parts.len() - 1].contains(SEPARATOR));
        if bytes.last() != SEPARATOR {
            let longer = parts.last().push(bytes.last());
            assert(!longer.contains(SEPARATOR)) by {
                if longer.contains(SEPARATOR) {
                    let i = choose|i: int| 0 <= i < longer.len() && longer[i] == SEPARATOR;
                    assert(parts.last()[i] == SEPARATOR);
                }
            }
        }
        assert forall|i: int| 0 <= i < split(bytes).len() implies !(
        #[trigger] split(bytes)[i]).contains(SEPARATOR) by {
            if i < parts.len() {
                assert(!parts[i].contains(SEPARATOR));
            }
        }
    }
}

/// A piece that follows a separator is the last of the pieces.
proof fn lemma_split_append(bytes: Seq<u8>, piece: Seq<u8>)
    requires
        !piece.contains(SEPARATOR),
    ensures
        split(bytes + seq![SEPARATOR] + piece) == split(bytes).push(piece),
    decreases piece.len(),
{
    let whole = bytes + seq![SEPARATOR] + piece;
    if piece.len() == 0 {
        assert(whole.drop_last() =~= bytes);
        assert(piece =~= Seq::empty());
    } else {
        let shorter = piece.drop_last();
        assert(!shorter.contains(SEPARATOR)) by {
            if shorter.contains(SEPARATOR) {
                let i = choose|i: int| 0 <= i < shorter.len() && shorter[i] == SEPARATOR;
                assert(piece[i] == SEPARATOR);
            }
        }
        lemma_split_append(bytes, shorter);
        assert(whole.drop_last() =~= bytes + seq![SEPARATOR] + shorter);
        assert(piece[piece.len() - 1] != SEPARATOR);
        assert(split(bytes).push(shorter).drop_last() =~= split(bytes));
        assert(shorter.push(piece.last()) =~= piece);
    }
}

/// Without a separator there is one piece.
proof fn lemma_split_one(piece: Seq<u8>)
    requires
        !piece.contains(SEPARATOR),
    ensures
        split(piece) == seq![piece],
    decreases piece.len(),
{
    if piece.len() == 0 {
        assert(piece =~= Seq::empty());
    } else {
        let shorter = piece.drop_last();
        assert(!shorter.contains(SEPARATOR)) by {
            if shorter.contains(SEPARATOR) {
                let i = choose|i: int| 0 <= i < shorter.len() && shorter[i] == SEPARATOR;
                assert(piece[i] == SEPARATOR);
            }
        }
        lemma_split_one(shorter);
        assert(piece[piece.len() - 1] != SEPARATOR);
        assert(shorter.push(piece.last()) =~= piece);
        assert(split(piece) =~= seq![piece]);
    }
}

/// A separator at the front gives an empty piece at the front.
proof fn lemma_split_rooted(bytes: Seq<u8>)
    ensures
        split(seq![SEPARATOR] + bytes) == seq![Seq::<u8>::empty()] + split(bytes),
    decreases bytes.len(),
{
    let whole = seq![SEPARATOR] + bytes;
    if bytes.len() == 0 {
        assert(whole.drop_last() =~= bytes);
        assert(whole.last() == SEPARATOR);
        assert(split(whole) =~= split(bytes).push(Seq::empty()));
        assert(split(whole) =~= seq![Seq::<u8>::empty()] + split(bytes));
    } else {
        let parts = split(bytes.drop_last());
        lemma_split_nonempty(bytes.drop_last());
        lemma_split_rooted(bytes.drop_last());
        assert(whole.drop_last() =~= seq![SEPARATOR] + bytes.drop_last());
        assert(split(whole) =~= seq![Seq::<u8>::empty()] + split(bytes));
    }
}

/// Names that were joined fall into pieces again.
proof fn lemma_split_join(parts: Seq<Seq<u8>>)
    requires
        parts.len() > 0,
        forall|i: int| 0 <= i < parts.len() ==> !(#[trigger] parts[i]).contains(SEPARATOR),
    ensures
        split(join(parts)) == parts,
    decreases parts.len(),
{
    assert(!parts[parts.len() - 1].contains(SEPARATOR));
    if parts.len() == 1 {
        lemma_split_one(parts[0]);
        assert(parts =~= seq![parts[0]]);
    } else {
        let rest = parts.drop_last();
        assert forall|i: int| 0 <= i < rest.len() implies !(#[trigger] rest[i]).contains(
            SEPARATOR,
        ) by {
            assert(rest[i] == parts[i]);
        }
        lemma_split_join(rest);
        lemma_split_append(join(rest), parts.last());
        assert(rest.push(parts.last()) =~= parts);
    }
}

/// Whatever the parts are, they lead to a place with a normal form.
proof fn lemma_resolve_is_way(absolute: bool, parts: Seq<Seq<u8>>)
    requires
        forall|i: int| 0 <= i < parts.len() ==> !(#[trigger] parts[i]).contains(SEPARATOR),
    ensures
        is_way(absolute, resolve(absolute, parts)),
    decreases parts.len(),
{
    if parts.len() > 0 {
        let rest = parts.drop_last();
        assert forall|i: int| 0 <= i < rest.len() implies !(#[trigger] rest[i]).contains(
            SEPARATOR,
        ) by {
            assert(rest[i] == parts[i]);
        }
        lemma_resolve_is_way(absolute, rest);
        let way = resolve(absolute, rest);
        let next = resolve(absolute, parts);
        assert(!parts[parts.len() - 1].contains(SEPARATOR));
        assert(seq![DOT, DOT] != seq![DOT]) by {
            assert(seq![DOT, DOT].len() != seq![DOT].len());
        }
        assert forall|i: int|
            #![trigger next[i]]
            0 <= i < next.len() implies is_name(next[i]) && (next[i] == seq![DOT, DOT] ==> !absolute
            && (i == 0 || next[i - 1] == seq![DOT, DOT])) by {
            if i < way.len() {
                assert(next[i] == way[i]);
            }
        }
    }
}

/// The parts of a normal form lead where they say.
proof fn lemma_resolve_way(absolute: bool, way: Seq<Seq<u8>>)
    requires
        is_way(absolute, way),
    ensures
        resolve(absolute, way) == way,
    decreases way.len(),
{
    if way.len() > 0 {
        let rest = way.drop_last();
        lemma_way_prefix(absolute, way);
        lemma_resolve_way(absolute, rest);
        assert(is_name(way[way.len() - 1]));
        assert(rest.push(way.last()) =~= way);
        if way.last() == seq![DOT, DOT] && rest.len() > 0 {
            assert(rest.last() == way[way.len() - 2]);
        }
    }
}

proof fn lemma_way_prefix(absolute: bool, way: Seq<Seq<u8>>)
    requires
        is_way(absolute, way),
        way.len() > 0,
    ensures
        is_way(absolute, way.drop_last()),
{
    let rest = way.drop_last();
    assert forall|i: int|
        #![trigger rest[i]]
        0 <= i < rest.len() implies is_name(rest[i]) && (rest[i] == seq![DOT, DOT] ==> !absolute
        && (i == 0 || rest[i - 1] == seq![DOT, DOT])) by {
        assert(rest[i] == way[i]);
    }
}

/// An empty part at the front makes no difference.
proof fn lemma_resolve_rooted(absolute: bool, parts: Seq<Seq<u8>>)
    ensures
        resolve(absolute, seq![Seq::<u8>::empty()] + parts) == resolve(absolute, parts),
    decreases parts.len(),
{
    let more = seq![Seq::<u8>::empty()] + parts;
    if parts.len() == 0 {
        assert(more.drop_last() =~= Seq::empty());
        assert(resolve(absolute, more.drop_last()) =~= Seq::empty());
        assert(more.last() =~= Seq::empty());
    } else {
        assert(more.drop_last() =~= seq![Seq::<u8>::empty()] + parts.drop_last());
        lemma_resolve_rooted(absolute, parts.drop_last());
    }
}

/// The path that leads a way is in normal form.
proof fn lemma_spelled_is_normal(absolute: bool, way: Seq<Seq<u8>>)
    requires
        is_way(absolute, way),
    ensures
        is_absolute(spelled(absolute, way)) == absolute,
        normalized(spelled(absolute, way)) == spelled(absolute, way),
{
    let path = spelled(absolute, way);
    assert forall|i: int| 0 <= i < way.len() implies !(#[trigger] way[i]).contains(SEPARATOR) by {
        assert(is_name(way[i]));
    }
    lemma_resolve_way(absolute, way);
    if way.len() > 0 {
        lemma_split_join(way);
        lemma_join_starts(way);
    }
    if absolute {
        lemma_split_rooted(join(way));
        lemma_resolve_rooted(absolute, split(join(way)));
        if way.len() == 0 {
            assert(resolve(absolute, split(Seq::<u8>::empty())) =~= Seq::empty()) by {
                reveal_with_fuel(resolve, 2);
                assert(split(Seq::<u8>::empty()).drop_last() =~= Seq::empty());
            }
            assert(way =~= Seq::empty());
        }
    } else if way.len() == 0 {
        assert(!seq![DOT].contains(SEPARATOR));
        lemma_split_one(seq![DOT]);
        assert(resolve(absolute, seq![seq![DOT]]) =~= Seq::empty()) by {
            reveal_with_fuel(resolve, 2);
            assert(seq![seq![DOT]].drop_last() =~= Seq::empty());
        }
    }
}

/// Joined names start as the first of them does.
proof fn lemma_join_starts(parts: Seq<Seq<u8>>)
    requires
        parts.len() > 0,
        parts[0].len() > 0,
    ensures
        join(parts).len() > 0,
        join(parts)[0] == parts[0][0],
        parts[0].contains(parts[0][0]),
    decreases parts.len(),
{
    if parts.len() > 1 {
        lemma_join_starts(parts.drop_last());
    }
}

/// The way that a path in normal form leads.
proof fn lemma_way_of(path: Seq<u8>) -> (way: Seq<Seq<u8>>)
    requires
        normalized(path) == path,
    ensures
        is_way(is_absolute(path), way),
        path == spelled(is_absolute(path), way),
{
    lemma_split_pieces(path);
    lemma_resolve_is_way(is_absolute(path), split(path));
    resolve(is_absolute(path), split(path))
}

/// The normal form of a path is in normal form itself.
pub proof fn law_normal_form(bytes: Seq<u8>)
    ensures
        normalized(normalized(bytes)) == normalized(bytes),
{
    lemma_split_pieces(bytes);
    lemma_resolve_is_way(is_absolute(bytes), split(bytes));
    lemma_spelled_is_normal(is_absolute(bytes), resolve(is_absolute(bytes), split(bytes)));
}

proof fn lemma_last_separator(bytes: Seq<u8>, piece: Seq<u8>)
    requires
        !piece.contains(SEPARATOR),
    ensures
        last_separator_of(bytes + seq![SEPARATOR] + piece) == bytes.len(),
        last_separator_of(piece) == -1,
    decreases piece.len(),
{
    let whole = bytes + seq![SEPARATOR] + piece;
    if piece.len() > 0 {
        let shorter = piece.drop_last();
        assert(!shorter.contains(SEPARATOR)) by {
            if shorter.contains(SEPARATOR) {
                let i = choose|i: int| 0 <= i < shorter.len() && shorter[i] == SEPARATOR;
                assert(piece[i] == SEPARATOR);
            }
        }
        lemma_last_separator(bytes, shorter);
        assert(whole.drop_last() =~= bytes + seq![SEPARATOR] + shorter);
        assert(piece[piece.len() - 1] != SEPARATOR);
    }
}

/// A separator at the end makes no other path. An empty path has no end to put it at: it would
/// become the root.
pub proof fn law_trailing_separator(path: Seq<u8>)
    requires
        path.len() > 0,
    ensures
        normalized(path.push(SEPARATOR)) == normalized(path),
{
    let longer = path.push(SEPARATOR);
    assert(longer.drop_last() =~= path);
    assert(split(longer).drop_last() =~= split(path));
    assert(split(longer).last() == Seq::<u8>::empty());
}

/// What holds a thing: the directory of `dir/name` is `dir`, that of `/name` is the root and that
/// of a bare name is `.`. A path that ends in `..` is its own directory.
pub proof fn law_directory(dir: Seq<u8>, name: Seq<u8>)
    requires
        !name.contains(SEPARATOR),
    ensures
        dir.len() > 0 && name != seq![DOT, DOT] ==> dir_of(dir + seq![SEPARATOR] + name) == dir,
        dir.len() > 0 && name == seq![DOT, DOT] ==> dir_of(dir + seq![SEPARATOR] + name) == dir
            + seq![SEPARATOR] + name,
        dir_of(seq![SEPARATOR] + name) == seq![SEPARATOR],
        name != seq![DOT, DOT] ==> dir_of(name) == seq![DOT],
        name == seq![DOT, DOT] ==> dir_of(name) == name,
{
    let empty = Seq::<u8>::empty();
    let path = dir + seq![SEPARATOR] + name;
    lemma_last_separator(dir, name);
    lemma_last_separator(empty, name);
    assert(path.skip(dir.len() as int + 1) =~= name);
    assert(path.take(dir.len() as int) =~= dir);
    assert(empty + seq![SEPARATOR] + name =~= seq![SEPARATOR] + name);
}

/// Whether a part is the name of something in the place before it: none of the parts that lead
/// nowhere or back.
pub open spec fn is_entry(part: Seq<u8>) -> bool {
    &&& part.len() > 0
    &&& part != seq![DOT]
    &&& part != seq![DOT, DOT]
    &&& !part.contains(SEPARATOR)
}

/// Where a path leads that goes on after `path`.
proof fn lemma_onward(path: Seq<u8>, part: Seq<u8>) -> (way: Seq<Seq<u8>>)
    requires
        !part.contains(SEPARATOR),
    ensures
        ({
            let absolute = is_absolute(path) || path.len() == 0;
            &&& is_way(absolute, way)
            &&& path.len() > 0 ==> normalized(path) == spelled(absolute, way)
            &&& path.len() == 0 ==> way.len() == 0
            &&& normalized(path + seq![SEPARATOR] + part) == spelled(
                absolute,
                follow(absolute, way, part),
            )
        }),
{
    let absolute = is_absolute(path) || path.len() == 0;
    let whole = path + seq![SEPARATOR] + part;
    let way = resolve(absolute, split(path));
    lemma_split_append(path, part);
    assert(split(path).push(part).drop_last() =~= split(path));
    lemma_split_pieces(path);
    lemma_resolve_is_way(absolute, split(path));
    assert(is_absolute(whole) == absolute);
    if path.len() == 0 {
        assert(split(path).drop_last() =~= Seq::empty());
        assert(split(path).last() == Seq::<u8>::empty());
        assert(way =~= Seq::empty()) by {
            reveal_with_fuel(resolve, 2);
        }
    }
    way
}

/// Where a path without a separator leads.
proof fn lemma_alone(part: Seq<u8>)
    requires
        !part.contains(SEPARATOR),
    ensures
        normalized(part) == spelled(false, follow(false, Seq::empty(), part)),
{
    lemma_split_one(part);
    assert(!is_absolute(part)) by {
        if is_absolute(part) {
            assert(part[0] == SEPARATOR);
        }
    }
    assert(seq![part].drop_last() =~= Seq::empty());
    assert(resolve(false, seq![part]) == follow(false, Seq::empty(), part)) by {
        reveal_with_fuel(resolve, 2);
    }
}

/// How the way that a path leads shows in the path.
proof fn lemma_shape(absolute: bool, way: Seq<Seq<u8>>)
    requires
        is_way(absolute, way),
    ensures
        way.len() == 0 ==> spelled(absolute, way) == if absolute {
            seq![SEPARATOR]
        } else {
            seq![DOT]
        },
        way.len() > 0 ==> {
            let path = spelled(absolute, way);
            let rest = spelled(absolute, way.drop_last());
            &&& is_name(way.last())
            &&& path != seq![SEPARATOR]
            &&& path != seq![DOT]
            &&& way.len() == 1 ==> path == if absolute {
                seq![SEPARATOR] + way.last()
            } else {
                way.last()
            }
            &&& way.len() > 1 ==> path == rest + seq![SEPARATOR] + way.last() && rest.len() > 0
        },
{
    if way.len() == 0 {
        assert(spelled(absolute, way) =~= if absolute {
            seq![SEPARATOR]
        } else {
            seq![DOT]
        });
    } else {
        let path = spelled(absolute, way);
        let rest = spelled(absolute, way.drop_last());
        assert(is_name(way[way.len() - 1]));
        assert(is_name(way[0]));
        if way.len() == 1 {
            if absolute {
                assert(path =~= seq![SEPARATOR] + way.last());
                assert(path.len() > 1);
            } else {
                assert(path =~= way.last());
                if path == seq![SEPARATOR] {
                    assert(path[0] == SEPARATOR);
                }
            }
        } else {
            assert(way.drop_last()[0] == way[0]);
            lemma_join_starts(way.drop_last());
            assert(path =~= rest + seq![SEPARATOR] + way.last());
            assert(path.len() > 2);
        }
    }
}

/// An empty part and `.` add nothing to a path; a path of nothing else is `.`, or the root where
/// it starts with a separator.
pub proof fn law_normal_here(path: Seq<u8>)
    ensures
        path.len() > 0 ==> normalized(path + seq![SEPARATOR]) == normalized(path),
        path.len() > 0 ==> normalized(path + seq![SEPARATOR, DOT]) == normalized(path),
        normalized(Seq::empty()) == seq![DOT],
        normalized(seq![DOT]) == seq![DOT],
        normalized(seq![SEPARATOR]) == seq![SEPARATOR],
        normalized(seq![SEPARATOR, DOT]) == seq![SEPARATOR],
{
    let none = Seq::<u8>::empty();
    let root = Seq::<Seq<u8>>::empty();
    assert(!seq![DOT].contains(SEPARATOR));
    assert(path + seq![SEPARATOR] + none =~= path + seq![SEPARATOR]);
    assert(path + seq![SEPARATOR] + seq![DOT] =~= path + seq![SEPARATOR, DOT]);
    assert(none + seq![SEPARATOR] + none =~= seq![SEPARATOR]);
    assert(none + seq![SEPARATOR] + seq![DOT] =~= seq![SEPARATOR, DOT]);
    let _ = lemma_onward(path, none);
    let _ = lemma_onward(path, seq![DOT]);
    let first = lemma_onward(none, none);
    let second = lemma_onward(none, seq![DOT]);
    lemma_alone(none);
    lemma_alone(seq![DOT]);
    assert(first =~= root && second =~= root);
    lemma_shape(true, root);
    lemma_shape(false, root);
}

/// A name is added to a path as it is, whatever it is made of and however long either is.
pub proof fn law_normal_entry(path: Seq<u8>, name: Seq<u8>)
    requires
        is_entry(name),
    ensures
        normalized(name) == name,
        normalized(seq![SEPARATOR] + name) == seq![SEPARATOR] + name,
        path.len() > 0 ==> normalized(path + seq![SEPARATOR] + name) == if normalized(path)
            == seq![SEPARATOR] {
            seq![SEPARATOR] + name
        } else if normalized(path) == seq![DOT] {
            name
        } else {
            normalized(path) + seq![SEPARATOR] + name
        },
{
    let none = Seq::<u8>::empty();
    let root = Seq::<Seq<u8>>::empty();
    lemma_alone(name);
    lemma_entry_shape(false, root, name);
    let first = lemma_onward(none, name);
    assert(first =~= root);
    assert(none + seq![SEPARATOR] + name =~= seq![SEPARATOR] + name);
    lemma_entry_shape(true, root, name);
    if path.len() > 0 {
        let way = lemma_onward(path, name);
        lemma_entry_shape(is_absolute(path), way, name);
    }
}

/// A way that goes on by a name.
proof fn lemma_entry_shape(absolute: bool, way: Seq<Seq<u8>>, name: Seq<u8>)
    requires
        is_way(absolute, way),
        is_entry(name),
    ensures
        spelled(absolute, way.push(name)) == if spelled(absolute, way) == seq![SEPARATOR] {
            seq![SEPARATOR] + name
        } else if spelled(absolute, way) == seq![DOT] {
            name
        } else {
            spelled(absolute, way) + seq![SEPARATOR] + name
        },
{
    let next = way.push(name);
    assert(next.drop_last() =~= way);
    assert(is_way(absolute, next)) by {
        assert forall|i: int|
            #![trigger next[i]]
            0 <= i < next.len() implies is_name(next[i]) && (next[i] == seq![DOT, DOT] ==> !absolute
            && (i == 0 || next[i - 1] == seq![DOT, DOT])) by {
            if i < way.len() {
                assert(next[i] == way[i]);
            }
        }
    }
    lemma_shape(absolute, way);
    lemma_shape(absolute, next);
    assert(seq![SEPARATOR][0] != seq![DOT][0]);
}

/// The part `..` takes back the last name of a path. At the root it adds nothing, and where there
/// is no name to take back it stays.
pub proof fn law_normal_parent(path: Seq<u8>, dir: Seq<u8>, name: Seq<u8>)
    requires
        path.len() > 0,
        is_entry(name),
    ensures
        normalized(seq![DOT, DOT]) == seq![DOT, DOT],
        normalized(seq![SEPARATOR, DOT, DOT]) == seq![SEPARATOR],
        ({
            let whole = normalized(path + seq![SEPARATOR, DOT, DOT]);
            let normal = normalized(path);
            &&& normal == seq![SEPARATOR] ==> whole == seq![SEPARATOR]
            &&& normal == seq![DOT] ==> whole == seq![DOT, DOT]
            &&& normal == seq![DOT, DOT] || normal == dir + seq![SEPARATOR, DOT, DOT] ==> whole
                == normal + seq![SEPARATOR, DOT, DOT]
            &&& normal == name ==> whole == seq![DOT]
            &&& normal == seq![SEPARATOR] + name ==> whole == seq![SEPARATOR]
            &&& dir.len() > 0 && normal == dir + seq![SEPARATOR] + name ==> whole == dir
        }),
{
    let none = Seq::<u8>::empty();
    let up = seq![DOT, DOT];
    let root = Seq::<Seq<u8>>::empty();
    assert(!up.contains(SEPARATOR));
    assert(up.len() == 2 && seq![DOT].len() == 1);
    lemma_shape(true, root);
    lemma_shape(false, root);
    lemma_alone(up);
    assert(spelled(false, root.push(up)) =~= up);
    let first = lemma_onward(none, up);
    assert(first =~= root);
    assert(none + seq![SEPARATOR] + up =~= seq![SEPARATOR, DOT, DOT]);
    assert(path + seq![SEPARATOR] + up =~= path + seq![SEPARATOR, DOT, DOT]);
    assert(dir + seq![SEPARATOR] + up =~= dir + seq![SEPARATOR, DOT, DOT]);
    let absolute = is_absolute(path);
    let normal = normalized(path);
    let way = lemma_onward(path, up);
    lemma_shape(absolute, way);
    if way.len() == 0 {
        assert(way =~= root);
        assert(seq![SEPARATOR][0] != seq![DOT][0]);
        assert(normal.len() == 1);
        assert(normal != name) by {
            if normal == name {
                assert(name[0] == SEPARATOR || name =~= seq![DOT]);
            }
        }
    } else {
        let last = way.last();
        let rest = way.drop_last();
        lemma_way_prefix(absolute, way);
        if way.len() == 1 {
            assert(rest =~= root);
            if absolute {
                lemma_ends(none, last, none, name);
                assert(none + seq![SEPARATOR] + last =~= normal);
                assert(none + seq![SEPARATOR] + name =~= seq![SEPARATOR] + name);
                lemma_ends(none, last, dir, name);
                lemma_ends(none, last, dir, up);
                assert(way[0] != up);
                lemma_not_bare(none, last, up);
                lemma_not_bare(none, last, name);
            } else {
                lemma_not_bare(dir, name, last);
                lemma_not_bare(dir, up, last);
                lemma_not_bare(none, name, last);
                assert(none + seq![SEPARATOR] + name =~= seq![SEPARATOR] + name);
            }
        } else {
            let head = spelled(absolute, rest);
            lemma_ends(head, last, dir, name);
            lemma_ends(head, last, dir, up);
            lemma_ends(head, last, none, name);
            assert(none + seq![SEPARATOR] + name =~= seq![SEPARATOR] + name);
            lemma_not_bare(head, last, up);
            lemma_not_bare(head, last, name);
        }
        if last == up {
            assert(!absolute) by {
                assert(way[way.len() - 1] == up);
            }
            let next = way.push(up);
            assert(next.drop_last() =~= way);
            assert(spelled(false, next) =~= normal + seq![SEPARATOR] + up);
            assert(normal + seq![SEPARATOR] + up =~= normal + seq![SEPARATOR, DOT, DOT]);
        }
    }
}

/// A path ends in one way only.
proof fn lemma_ends(a: Seq<u8>, x: Seq<u8>, b: Seq<u8>, y: Seq<u8>)
    requires
        !x.contains(SEPARATOR),
        !y.contains(SEPARATOR),
    ensures
        a + seq![SEPARATOR] + x == b + seq![SEPARATOR] + y ==> a == b && x == y,
{
    let one = a + seq![SEPARATOR] + x;
    let other = b + seq![SEPARATOR] + y;
    if one == other {
        lemma_last_separator(a, x);
        lemma_last_separator(b, y);
        assert(a =~= one.take(a.len() as int));
        assert(b =~= other.take(b.len() as int));
        assert(x =~= one.skip(a.len() as int + 1));
        assert(y =~= other.skip(b.len() as int + 1));
    }
}

/// A path with a separator is no bare name.
proof fn lemma_not_bare(a: Seq<u8>, x: Seq<u8>, y: Seq<u8>)
    requires
        !y.contains(SEPARATOR),
    ensures
        a + seq![SEPARATOR] + x != y,
{
    let one = a + seq![SEPARATOR] + x;
    assert(one[a.len() as int] == SEPARATOR);
    if one == y {
        assert(y[a.len() as int] == SEPARATOR);
    }
}

/// The directory of a path in normal form is in normal form.
pub proof fn law_dir_is_normal(path: Seq<u8>)
    requires
        normalized(path) == path,
    ensures
        normalized(dir_of(path)) == dir_of(path),
{
    let absolute = is_absolute(path);
    let way = lemma_way_of(path);
    let none = Seq::<Seq<u8>>::empty();
    let empty = Seq::<u8>::empty();
    lemma_spelled_is_normal(absolute, none);
    lemma_spelled_is_normal(false, none);
    assert(spelled(true, none) =~= seq![SEPARATOR]);
    if way.len() == 0 {
        lemma_last_separator(empty, empty);
        if absolute {
            assert(path =~= empty + seq![SEPARATOR] + empty);
        } else {
            assert(!seq![DOT].contains(SEPARATOR));
            lemma_last_separator(empty, seq![DOT]);
        }
    } else {
        let rest = way.drop_last();
        let last = way.last();
        assert(is_name(way[way.len() - 1]));
        lemma_way_prefix(absolute, way);
        if way.len() == 1 {
            lemma_last_separator(empty, last);
            if absolute {
                assert(path =~= empty + seq![SEPARATOR] + last);
            }
        } else {
            let head = spelled(absolute, rest);
            assert(path =~= head + seq![SEPARATOR] + last);
            lemma_last_separator(head, last);
            assert(path.take(head.len() as int) =~= head);
            assert(path.skip(head.len() as int + 1) =~= last);
            lemma_spelled_is_normal(absolute, rest);
        }
    }
}

} // verus!
