//! Unix paths, whose segments are separated by slashes.
//!
//! Nothing but a slash separates segments here: a backslash is a character of a name, and there
//! are no drive prefixes. The library is for systems with such paths.

use crate::text::to_chars;
use vstd::prelude::*;
use vstd::string::StringExecFns;

verus! {

/// The parts between the slashes of `s`: a slash starts a new part, any other character extends
/// the last one.
pub open spec fn segments(s: Seq<char>) -> Seq<Seq<char>>
    decreases s.len(),
{
    if s.len() == 0 {
        seq![Seq::<char>::empty()]
    } else {
        let before = segments(s.drop_last());
        if s.last() == '/' {
            before.push(Seq::<char>::empty())
        } else {
            before.drop_last().push(before.last().push(s.last()))
        }
    }
}

/// The segment that stands for the directory it is in.
pub open spec fn here() -> Seq<char> {
    seq!['.']
}

/// The segment that stands for the directory above.
pub open spec fn above() -> Seq<char> {
    seq!['.', '.']
}

/// A segment that leads somewhere: neither empty nor a single dot.
pub open spec fn is_name(segment: Seq<char>) -> bool {
    segment.len() > 0 && segment != here()
}

/// Those of the segments that lead somewhere.
pub open spec fn names_in(list: Seq<Seq<char>>) -> Seq<Seq<char>> {
    list.filter(|segment: Seq<char>| is_name(segment))
}

/// The segments of `s` that lead somewhere.
pub open spec fn names(s: Seq<char>) -> Seq<Seq<char>> {
    names_in(segments(s))
}

/// Whether the path starts at the root.
pub open spec fn is_absolute(s: Seq<char>) -> bool {
    s.len() > 0 && s[0] == '/'
}

/// Whether the path starts with a single dot.
pub open spec fn starts_here(s: Seq<char>) -> bool {
    segments(s)[0] == here()
}

/// The last name of a path, unless there is none or it leads to the directory above.
pub open spec fn last_name(s: Seq<char>) -> Option<Seq<char>> {
    if names(s).len() == 0 || names(s).last() == above() {
        None
    } else {
        Some(names(s).last())
    }
}

/// Two spellings of one path: repeated and trailing slashes make no difference, nor do single
/// dots after the start.
pub open spec fn same_location(a: Seq<char>, b: Seq<char>) -> bool {
    &&& is_absolute(a) == is_absolute(b)
    &&& starts_here(a) == starts_here(b)
    &&& names(a) == names(b)
}

/// `name` in the directory `dir`: a slash stands between them, unless the directory ends with one
/// or is empty.
pub open spec fn joined(dir: Seq<char>, name: Seq<char>) -> Seq<char> {
    if dir.len() == 0 || dir.last() == '/' {
        dir + name
    } else {
        dir.push('/') + name
    }
}

/// A name for a file in a directory, which leads neither out of the directory nor below it.
pub open spec fn is_plain_name(name: Seq<char>) -> bool {
    is_name(name) && name != above() && !name.contains('/')
}

/// The contents of a list of strings.
pub open spec fn views(list: Seq<String>) -> Seq<Seq<char>> {
    list.map_values(|s: String| s@)
}

proof fn lemma_names_in_push(list: Seq<Seq<char>>, segment: Seq<char>)
    ensures
        names_in(Seq::<Seq<char>>::empty()) == Seq::<Seq<char>>::empty(),
        names_in(list.push(segment)) == if is_name(segment) {
            names_in(list).push(segment)
        } else {
            names_in(list)
        },
{
    reveal(Seq::filter);
    assert(list.push(segment).drop_last() == list);
}

/// There is always a segment, and its characters are characters of the path other than slashes.
proof fn lemma_segments(s: Seq<char>)
    ensures
        segments(s).len() > 0,
        forall|k: int, i: int|
            0 <= k < segments(s).len() && 0 <= i < segments(s)[k].len()
                ==> #[trigger] segments(s)[k][i] != '/' && s.contains(segments(s)[k][i]),
    decreases s.len(),
{
    if s.len() > 0 {
        let before = s.drop_last();
        lemma_segments(before);
        assert(s.last() == s[s.len() - 1]);
        assert forall|k: int, i: int|
            0 <= k < segments(s).len() && 0 <= i < segments(s)[k].len() implies #[trigger] segments(
            s,
        )[k][i] != '/' && s.contains(segments(s)[k][i]) by {
            let c = segments(s)[k][i];
            if k < segments(before).len() && i < segments(before)[k].len() {
                assert(c == segments(before)[k][i]);
                let at = choose|at: int| 0 <= at < before.len() && before[at] == c;
                assert(s[at] == c);
            } else {
                assert(c == s.last());
            }
        }
    }
}

/// The segments of a path.
pub fn split_segments(s: &str) -> (list: Vec<String>)
    ensures
        views(list@) == segments(s@),
        list@.len() > 0,
{
    let chars: Vec<char> = to_chars(s);
    let mut list: Vec<String> = Vec::new();
    let mut current: String = String::new();
    assert(s@.take(0) == Seq::<char>::empty());
    assert(views(list@).push(current@) == segments(s@.take(0)));
    for i in 0..chars.len()
        invariant
            chars@ == s@,
            views(list@).push(current@) == segments(s@.take(i as int)),
    {
        let ghost before = list@;
        assert(s@.take(i + 1).drop_last() == s@.take(i as int));
        if chars[i] == '/' {
            list.push(current);
            assert(views(list@) == views(before).push(current@));
            current = String::new();
        } else {
            assert(views(list@).push(current@).drop_last() == views(list@));
            current.push(chars[i]);
        }
    }
    assert(s@.take(s@.len() as int) == s@);
    let ghost before = list@;
    list.push(current);
    assert(views(list@) == views(before).push(current@));
    list
}

/// Whether a segment is a single dot.
fn is_here(segment: &str) -> (yes: bool)
    ensures
        yes == (segment@ == here()),
{
    let chars: Vec<char> = to_chars(segment);
    let yes: bool = chars.len() == 1 && chars[0] == '.';
    assert(yes ==> segment@ == here());
    yes
}

/// Whether a segment is two dots.
fn is_above(segment: &str) -> (yes: bool)
    ensures
        yes == (segment@ == above()),
{
    let chars: Vec<char> = to_chars(segment);
    let yes: bool = chars.len() == 2 && chars[0] == '.' && chars[1] == '.';
    assert(yes ==> segment@ == above());
    yes
}

/// Those of the segments that lead somewhere.
fn keep_names(list: &Vec<String>) -> (kept: Vec<String>)
    ensures
        views(kept@) == names_in(views(list@)),
{
    let mut kept: Vec<String> = Vec::new();
    proof {
        lemma_names_in_push(Seq::empty(), Seq::empty());
        assert(views(list@).take(0) == Seq::<Seq<char>>::empty());
        assert(views(kept@) == Seq::<Seq<char>>::empty());
    }
    for i in 0..list.len()
        invariant
            views(kept@) == names_in(views(list@).take(i as int)),
    {
        let ghost before = kept@;
        proof {
            lemma_names_in_push(views(list@).take(i as int), list@[i as int]@);
            assert(views(list@).take(i + 1) == views(list@).take(i as int).push(list@[i as int]@));
        }
        if !list[i].as_str().is_empty() && !is_here(list[i].as_str()) {
            kept.push(list[i].clone());
            assert(views(kept@) == views(before).push(list@[i as int]@));
        }
    }
    assert(views(list@).take(list@.len() as int) == views(list@));
    kept
}

/// The last name of a path, unless there is none or it leads to the directory above.
pub fn file_name(s: &str) -> (name: Option<String>)
    ensures
        match name {
            Some(n) => last_name(s@) == Some(n@),
            None => last_name(s@) is None,
        },
{
    let list: Vec<String> = split_segments(s);
    let mut kept: Vec<String> = keep_names(&list);
    let ghost found = kept@;
    match kept.pop() {
        None => None,
        Some(last) => {
            assert(views(found).last() == last@);
            if is_above(last.as_str()) {
                None
            } else {
                Some(last)
            }
        },
    }
}

/// Whether two lists hold the same strings in the same order.
fn same_list(a: &Vec<String>, b: &Vec<String>) -> (yes: bool)
    ensures
        yes == (views(a@) == views(b@)),
{
    if a.len() != b.len() {
        assert(views(a@).len() != views(b@).len());
        return false;
    }
    for i in 0..a.len()
        invariant
            a@.len() == b@.len(),
            forall|j: int| 0 <= j < i ==> (#[trigger] a@[j])@ == b@[j]@,
    {
        if a[i] != b[i] {
            assert(views(a@)[i as int] != views(b@)[i as int]);
            return false;
        }
    }
    assert(views(a@) == views(b@));
    true
}

/// Whether the path starts at the root.
fn starts_at_root(s: &str) -> (yes: bool)
    ensures
        yes == is_absolute(s@),
{
    let chars: Vec<char> = to_chars(s);
    chars.len() > 0 && chars[0] == '/'
}

/// Whether two spellings name the same path.
pub fn same_path(a: &str, b: &str) -> (yes: bool)
    ensures
        yes == same_location(a@, b@),
{
    let left: Vec<String> = split_segments(a);
    let right: Vec<String> = split_segments(b);
    assert(views(left@)[0] == left@[0]@);
    assert(views(right@)[0] == right@[0]@);
    starts_at_root(a) == starts_at_root(b) && is_here(left[0].as_str()) == is_here(
        right[0].as_str(),
    ) && same_list(&keep_names(&left), &keep_names(&right))
}

/// The path of a name in a directory.
pub fn join(dir: &str, name: &str) -> (path: String)
    ensures
        path@ == joined(dir@, name@),
{
    let chars: Vec<char> = to_chars(dir);
    let mut path: String = dir.to_owned();
    if chars.len() > 0 && chars[chars.len() - 1] != '/' {
        path.push('/');
    }
    path.append(name);
    path
}

/// The last name of a path is a plain name, made of characters of the path.
pub proof fn law_last_name_is_plain(s: Seq<char>)
    ensures
        last_name(s) matches Some(name) ==> is_plain_name(name) && forall|c: char|
            name.contains(c) ==> s.contains(c),
{
    lemma_segments(s);
    if last_name(s) is Some {
        let name = last_name(s).unwrap();
        lemma_names_in_source(segments(s));
        assert(names(s)[names(s).len() - 1] == name);
        let k = choose|k: int| 0 <= k < segments(s).len() && segments(s)[k] == name;
        assert forall|c: char| name.contains(c) implies s.contains(c) && c != '/' by {
            let i = choose|i: int| 0 <= i < name.len() && name[i] == c;
            assert(segments(s)[k][i] == c);
        }
    }
}

/// What is kept leads somewhere and was in the list.
proof fn lemma_names_in_source(list: Seq<Seq<char>>)
    ensures
        forall|i: int|
            0 <= i < names_in(list).len() ==> is_name(#[trigger] names_in(list)[i])
                && list.contains(names_in(list)[i]),
    decreases list.len(),
{
    if list.len() == 0 {
        assert(list == Seq::<Seq<char>>::empty());
        lemma_names_in_push(Seq::empty(), Seq::empty());
    } else {
        let before = list.drop_last();
        lemma_names_in_source(before);
        lemma_names_in_push(before, list.last());
        assert(list == before.push(list.last()));
        assert forall|i: int| 0 <= i < names_in(list).len() implies is_name(
            #[trigger] names_in(list)[i],
        ) && list.contains(names_in(list)[i]) by {
            let name = names_in(list)[i];
            if i < names_in(before).len() {
                assert(name == names_in(before)[i]);
                let k = choose|k: int| 0 <= k < before.len() && before[k] == name;
                assert(list[k] == name);
            } else {
                assert(list[list.len() - 1] == name);
            }
        }
    }
}

proof fn lemma_segments_extend(path: Seq<char>, name: Seq<char>)
    requires
        !name.contains('/'),
    ensures
        segments(path + name) == segments(path).drop_last().push(segments(path).last() + name),
    decreases name.len(),
{
    lemma_segments(path);
    let longer = path + name;
    let last = segments(path).last();
    if name.len() == 0 {
        assert(longer == path);
        assert(last + name == last);
        assert(segments(path).drop_last().push(last) == segments(path));
    } else {
        let shorter = name.drop_last();
        assert forall|i: int| 0 <= i < shorter.len() implies shorter[i] != '/' by {
            assert(name[i] != '/');
        }
        lemma_segments_extend(path, shorter);
        assert(longer.drop_last() == path + shorter);
        assert(longer.last() == name.last());
        assert(name[name.len() - 1] != '/');
        assert(segments(path).drop_last().push(last + shorter).drop_last() == segments(
            path,
        ).drop_last());
        assert((last + shorter).push(name.last()) == last + name);
    }
}

/// A file with a plain name lies directly in the directory it is put in: the path leads to the
/// directory and then to the name, which is the last name of the path.
pub proof fn law_plain_name_stays_in_directory(dir: Seq<char>, name: Seq<char>)
    requires
        is_plain_name(name),
    ensures
        names(joined(dir, name)) == names(dir).push(name),
        last_name(joined(dir, name)) == Some(name),
        is_absolute(joined(dir, name)) == is_absolute(dir),
        starts_here(joined(dir, name)) == starts_here(dir),
{
    let none = Seq::<char>::empty();
    lemma_segments(dir);
    if dir.len() == 0 || dir.last() == '/' {
        let before = segments(dir).drop_last();
        assert(segments(dir).last() == none);
        assert(segments(dir) == before.push(none));
        lemma_segments_extend(dir, name);
        assert(none + name == name);
        lemma_names_in_push(before, none);
        lemma_names_in_push(before, name);
        if dir.len() == 0 {
            assert(name[0] != '/');
        }
    } else {
        let start = dir.push('/');
        assert(start.drop_last() == dir);
        assert(segments(start) == segments(dir).push(none));
        assert(segments(start).drop_last() == segments(dir));
        lemma_segments_extend(start, name);
        assert(none + name == name);
        lemma_names_in_push(segments(dir), name);
    }
    if dir.len() > 0 {
        assert(joined(dir, name)[0] == dir[0]);
    }
}

/// Two files with plain names are at one place exactly if their directories are and their names
/// are the same.
pub proof fn law_files_differ_by_directory_or_name(
    dir1: Seq<char>,
    name1: Seq<char>,
    dir2: Seq<char>,
    name2: Seq<char>,
)
    requires
        is_plain_name(name1),
        is_plain_name(name2),
    ensures
        same_location(joined(dir1, name1), joined(dir2, name2)) <==> same_location(dir1, dir2)
            && name1 == name2,
{
    law_plain_name_stays_in_directory(dir1, name1);
    law_plain_name_stays_in_directory(dir2, name2);
    let path1 = names(dir1).push(name1);
    let path2 = names(dir2).push(name2);
    if path1 == path2 {
        assert(path1.drop_last() == names(dir1));
        assert(path2.drop_last() == names(dir2));
        assert(path1.last() == name1 && path2.last() == name2);
    }
}

/// A text without slashes is one segment, and a slash stands between the segments of what is
/// before it and the segments of what is after it.
pub proof fn law_slashes_separate_segments(a: Seq<char>, b: Seq<char>)
    ensures
        !a.contains('/') ==> segments(a) == seq![a],
        segments(a.push('/') + b) == segments(a) + segments(b),
    decreases b.len(),
{
    let none = Seq::<char>::empty();
    if !a.contains('/') {
        lemma_segments_extend(none, a);
        assert(none + a == a);
        assert(segments(none).drop_last() == Seq::<Seq<char>>::empty());
        assert(segments(a) == seq![a]);
    }
    let path = a.push('/') + b;
    if b.len() == 0 {
        assert(path.drop_last() == a);
        assert(path.last() == '/');
        assert(segments(path) == segments(a) + segments(b));
    } else {
        let shorter = b.drop_last();
        law_slashes_separate_segments(a, shorter);
        lemma_segments(shorter);
        assert(path.drop_last() == a.push('/') + shorter);
        assert(path.last() == b.last());
        let before = segments(a) + segments(shorter);
        assert(before.last() == segments(shorter).last());
        assert(before.drop_last() == segments(a) + segments(shorter).drop_last());
        assert(segments(path) == segments(a) + segments(b));
    }
}

proof fn lemma_names_concat(a: Seq<char>, b: Seq<char>)
    ensures
        names(a.push('/') + b) == names(a) + names(b),
        segments(a.push('/') + b)[0] == segments(a)[0],
        names(Seq::empty()) == Seq::<Seq<char>>::empty(),
        names(seq!['.']) == Seq::<Seq<char>>::empty(),
{
    law_slashes_separate_segments(a, b);
    lemma_segments(a);
    Seq::filter_distributes_over_add(
        segments(a),
        segments(b),
        |segment: Seq<char>| is_name(segment),
    );
    lemma_single_name(Seq::empty());
    lemma_single_name(seq!['.']);
}

proof fn lemma_single_name(s: Seq<char>)
    requires
        !s.contains('/'),
    ensures
        names(s) == if is_name(s) {
            seq![s]
        } else {
            Seq::<Seq<char>>::empty()
        },
{
    law_slashes_separate_segments(s, Seq::empty());
    lemma_names_in_push(Seq::empty(), s);
    assert(Seq::<Seq<char>>::empty().push(s) == seq![s]);
}

/// The last name of a path is what stands behind its last slash, if that is a name. Slashes and
/// single dots behind it make no difference.
pub proof fn law_last_name_is_behind_the_last_slash(parent: Seq<char>, name: Seq<char>)
    requires
        parent.len() == 0 || parent.last() == '/',
        name.len() > 0,
        name != seq!['.'],
        name != seq!['.', '.'],
        !name.contains('/'),
    ensures
        last_name(parent + name) == Some(name),
        last_name((parent + name).push('/')) == Some(name),
        last_name((parent + name).push('/').push('.')) == Some(name),
{
    law_plain_name_stays_in_directory(parent, name);
    law_slash_and_dot_keep_the_last_name(parent + name);
}

/// A slash at the end of a path makes no difference to its last name, nor do a slash and a dot.
pub proof fn law_slash_and_dot_keep_the_last_name(s: Seq<char>)
    ensures
        last_name(s.push('/')) == last_name(s),
        last_name(s.push('/').push('.')) == last_name(s),
{
    lemma_names_concat(s, Seq::empty());
    lemma_names_concat(s, seq!['.']);
    assert(s.push('/') + Seq::<char>::empty() == s.push('/'));
    assert(s.push('/') + seq!['.'] == s.push('/').push('.'));
    assert(names(s) + Seq::<Seq<char>>::empty() == names(s));
}

/// A path that ends with two dots has no last name, nor has one of slashes and single dots only.
pub proof fn law_paths_without_last_name(parent: Seq<char>, s: Seq<char>)
    requires
        parent.len() == 0 || parent.last() == '/',
        forall|i: int| 0 <= i < s.len() ==> #[trigger] s[i] == '/' || s[i] == '.',
        forall|i: int| 0 < i < s.len() ==> #[trigger] s[i] == '/' || s[i - 1] == '/',
    ensures
        last_name(parent.push('.').push('.')) is None,
        last_name(s) is None,
{
    let dots = seq!['.', '.'];
    assert(dots.len() == 2);
    assert(parent.push('.').push('.') == parent + dots);
    lemma_single_name(dots);
    if parent.len() == 0 {
        assert(parent + dots == dots);
    } else {
        let start = parent.drop_last();
        assert(parent == start.push('/'));
        lemma_names_concat(start, dots);
    }
    assert(names(parent + dots).last() == dots);
    lemma_no_names(s);
}

proof fn lemma_single_dots(s: Seq<char>)
    requires
        forall|i: int| 0 <= i < s.len() ==> #[trigger] s[i] == '/' || s[i] == '.',
        forall|i: int| 0 < i < s.len() ==> #[trigger] s[i] == '/' || s[i - 1] == '/',
    ensures
        forall|k: int| 0 <= k < segments(s).len() ==> !is_name(#[trigger] segments(s)[k]),
    decreases s.len(),
{
    if s.len() > 0 {
        let before = s.drop_last();
        lemma_segments(before);
        lemma_single_dots(before);
        assert(s[s.len() - 1] == '/' || s[s.len() - 1] == '.');
        if s.last() == '.' {
            if before.len() > 0 {
                assert(s[s.len() - 1] == '/' || s[s.len() - 2] == '/');
                assert(before.last() == '/');
            }
            assert(segments(before).last() == Seq::<char>::empty());
            assert(segments(before).last().push('.') == here());
        }
        assert forall|k: int| 0 <= k < segments(s).len() implies !is_name(
            #[trigger] segments(s)[k],
        ) by {
            if k < segments(s).len() - 1 {
                assert(segments(s)[k] == segments(before)[k]);
            }
        }
    }
}

/// The path of a name in a directory is the directory, one slash, and the name. The slash is that
/// of the directory if it ends with one, and there is none if the directory is empty.
pub proof fn law_joined(dir: Seq<char>, name: Seq<char>)
    ensures
        joined(Seq::empty(), name) == name,
        joined(dir.push('/'), name) == dir.push('/') + name,
        dir.len() > 0 && dir.last() != '/' ==> {
            &&& joined(dir, name).len() == dir.len() + 1 + name.len()
            &&& joined(dir, name).take(dir.len() as int) == dir
            &&& joined(dir, name)[dir.len() as int] == '/'
            &&& joined(dir, name).skip(dir.len() as int + 1) == name
        },
{
    assert(Seq::<char>::empty() + name == name);
    assert(dir.push('/').last() == '/');
    let path = joined(dir, name);
    if dir.len() > 0 && dir.last() != '/' {
        assert(path.take(dir.len() as int) == dir);
        assert(path.skip(dir.len() as int + 1) == name);
    }
}

/// Being at one place is an equivalence, and every path is at the place that it names.
pub proof fn law_same_location_is_an_equivalence(a: Seq<char>, b: Seq<char>, c: Seq<char>)
    ensures
        same_location(a, a),
        same_location(a, b) == same_location(b, a),
        same_location(a, b) && same_location(b, c) ==> same_location(a, c),
{
}

/// A slash at the end of a path makes no difference to its place, nor do a slash and a dot there,
/// nor a second slash, nor a slash and a dot before a slash.
pub proof fn law_spellings_of_one_location(a: Seq<char>, b: Seq<char>)
    ensures
        a.len() > 0 ==> same_location(a, a.push('/')),
        a.len() > 0 ==> same_location(a, a.push('/').push('.')),
        same_location(a.push('/') + b, a.push('/').push('/') + b),
        same_location(a.push('/') + b, a.push('/').push('.').push('/') + b),
{
    let none = Seq::<char>::empty();
    let dot = seq!['.'];
    lemma_names_concat(a, none);
    lemma_names_concat(a, dot);
    lemma_names_concat(a, b);
    lemma_names_concat(a.push('/'), b);
    lemma_names_concat(a.push('/').push('.'), b);
    assert(a.push('/') + none == a.push('/'));
    assert(a.push('/') + dot == a.push('/').push('.'));
    assert(names(a) + Seq::<Seq<char>>::empty() == names(a));
}

/// Paths are told apart name by name from the end: two are at one place exactly if what stands
/// behind their last slashes is the same and what stands before is at one place. That holds of the
/// directory above as well.
pub proof fn law_places_are_told_by_parent_and_name(
    parent1: Seq<char>,
    name1: Seq<char>,
    parent2: Seq<char>,
    name2: Seq<char>,
)
    requires
        parent1.len() == 0 || parent1.last() == '/',
        parent2.len() == 0 || parent2.last() == '/',
        name1.len() > 0 && name1 != seq!['.'] && !name1.contains('/'),
        name2.len() > 0 && name2 != seq!['.'] && !name2.contains('/'),
    ensures
        same_location(parent1 + name1, parent2 + name2) <==> name1 == name2 && same_location(
            parent1,
            parent2,
        ),
{
    lemma_name_in_parent(parent1, name1);
    lemma_name_in_parent(parent2, name2);
    let path1 = names(parent1).push(name1);
    let path2 = names(parent2).push(name2);
    assert(path1.last() == name1 && path2.last() == name2);
    assert(path1.drop_last() == names(parent1));
    assert(path2.drop_last() == names(parent2));
}

proof fn lemma_name_in_parent(parent: Seq<char>, name: Seq<char>)
    requires
        parent.len() == 0 || parent.last() == '/',
        name.len() > 0 && name != seq!['.'] && !name.contains('/'),
    ensures
        names(parent + name) == names(parent).push(name),
        is_absolute(parent + name) == is_absolute(parent),
        starts_here(parent + name) == starts_here(parent),
{
    let none = Seq::<char>::empty();
    lemma_single_name(name);
    if parent.len() == 0 {
        assert(parent + name == name);
        lemma_names_concat(none, none);
        law_slashes_separate_segments(name, none);
        assert(name[0] != '/');
        assert(names(parent).push(name) == seq![name]);
    } else {
        let start = parent.drop_last();
        assert(parent == start.push('/'));
        assert(parent + none == parent);
        lemma_names_concat(start, name);
        lemma_names_concat(start, none);
        assert(names(start) + seq![name] == names(parent).push(name));
        assert((parent + name)[0] == parent[0]);
    }
}

/// An absolute path and a relative one are at different places, and so are one that starts with a
/// single dot and one that does not. Of paths of slashes and single dots only, nothing else tells
/// them apart, and none of them is at the place of a path with a name.
pub proof fn law_starts_of_paths_tell_them_apart(
    a: Seq<char>,
    b: Seq<char>,
    parent: Seq<char>,
    name: Seq<char>,
)
    requires
        parent.len() == 0 || parent.last() == '/',
        name.len() > 0 && name != seq!['.'] && !name.contains('/'),
    ensures
        same_location(a, b) ==> (a.len() > 0 && a[0] == '/') == (b.len() > 0 && b[0] == '/'),
        same_location(a, b) ==> (a.len() > 0 && a[0] == '.' && (a.len() == 1 || a[1] == '/')) == (
        b.len() > 0 && b[0] == '.' && (b.len() == 1 || b[1] == '/')),
        is_slashes_and_single_dots(a) && is_slashes_and_single_dots(b) && (a.len() > 0) == (b.len()
            > 0) && (a.len() > 0 ==> a[0] == b[0]) ==> same_location(a, b),
        is_slashes_and_single_dots(a) ==> !same_location(a, parent + name),
{
    lemma_starts_here(a);
    lemma_starts_here(b);
    if is_slashes_and_single_dots(a) {
        lemma_no_names(a);
        lemma_name_in_parent(parent, name);
        if is_slashes_and_single_dots(b) {
            lemma_no_names(b);
            assert(names(a) == names(b));
            if a.len() > 1 && a[0] == '.' {
                assert(a[1] == '/' || a[0] == '/');
            }
            if b.len() > 1 && b[0] == '.' {
                assert(b[1] == '/' || b[0] == '/');
            }
        }
    }
}

/// Whether a path has no name: it is made of slashes and of dots with no dot beside them.
pub open spec fn is_slashes_and_single_dots(s: Seq<char>) -> bool {
    &&& forall|i: int| 0 <= i < s.len() ==> #[trigger] s[i] == '/' || s[i] == '.'
    &&& forall|i: int| 0 < i < s.len() ==> #[trigger] s[i] == '/' || s[i - 1] == '/'
}

proof fn lemma_no_names(s: Seq<char>)
    requires
        is_slashes_and_single_dots(s),
    ensures
        names(s).len() == 0,
{
    lemma_single_dots(s);
    lemma_names_in_source(segments(s));
    if names(s).len() > 0 {
        let name = names(s)[0];
        assert(is_name(name));
        let k = choose|k: int| 0 <= k < segments(s).len() && segments(s)[k] == name;
        assert(!is_name(segments(s)[k]));
    }
}

proof fn lemma_starts_here(s: Seq<char>)
    ensures
        starts_here(s) <==> s.len() > 0 && s[0] == '.' && (s.len() == 1 || s[1] == '/'),
{
    let first = first_slash(s);
    if s.contains('/') {
        lemma_first_slash(s, 0);
        let start = s.take(first);
        let rest = s.skip(first + 1);
        assert(s == start.push('/') + rest);
        assert(!start.contains('/')) by {
            assert forall|i: int| 0 <= i < start.len() implies start[i] != '/' by {
                assert(s[i] != '/');
            }
        }
        law_slashes_separate_segments(start, rest);
        assert(segments(s)[0] == start);
        if first == 1 && s[0] == '.' {
            assert(start == here());
        }
        if start == here() {
            assert(start.len() == 1 && start[0] == '.');
        }
    } else {
        law_slashes_separate_segments(s, Seq::empty());
        assert(segments(s)[0] == s);
        if s == here() {
            assert(s.len() == 1 && s[0] == '.');
        }
        if s.len() == 1 && s[0] == '.' {
            assert(s == here());
        }
        if s.len() > 1 {
            assert(s[1] != '/');
        }
    }
}

spec fn first_slash(s: Seq<char>) -> int {
    choose|i: int|
        0 <= i < s.len() && s[i] == '/' && forall|j: int| 0 <= j < i ==> #[trigger] s[j] != '/'
}

proof fn lemma_first_slash(s: Seq<char>, k: int)
    requires
        0 <= k <= s.len(),
        forall|j: int| 0 <= j < k ==> #[trigger] s[j] != '/',
        s.contains('/'),
    ensures
        0 <= first_slash(s) < s.len(),
        s[first_slash(s)] == '/',
        forall|j: int| 0 <= j < first_slash(s) ==> #[trigger] s[j] != '/',
    decreases s.len() - k,
{
    if k < s.len() {
        if s[k] != '/' {
            lemma_first_slash(s, k + 1);
        }
    } else {
        let i = choose|i: int| 0 <= i < s.len() && s[i] == '/';
        assert(s[i] != '/');
    }
}

/// A list of strings is told string by string.
pub proof fn law_views(list: Seq<String>, i: int)
    requires
        0 <= i < list.len(),
    ensures
        views(list).len() == list.len(),
        views(list)[i] == list[i]@,
{
}

} // verus!
