//! Paths as sequences of components.
//!
//! Two spellings of a path are the same path when their components are: repeated
//! separators, a separator at the end and `.` in the middle say nothing. A path
//! lies under another when it has more components, not when its text is longer:
//! `/etcetera` is not under `/etc`.

use vstd::prelude::*;
use crate::text::{
    append, chars_of, equal, law_pieces_stand_between_separators, owned, pieces, spells,
    split_at_char, string_of, texts, views,
};

verus! {

/// Whether a piece between separators is a component.
pub open spec fn counts(piece: Seq<char>, first: bool) -> bool {
    piece.len() > 0 && (piece != "."@ || first)
}

/// The components among the first so many pieces.
pub open spec fn kept(parts: Seq<Seq<char>>) -> Seq<Seq<char>>
    decreases parts.len(),
{
    if parts.len() == 0 {
        seq![]
    } else {
        let before = kept(parts.drop_last());
        if counts(parts.last(), parts.len() == 1) {
            before.push(parts.last())
        } else {
            before
        }
    }
}

/// The components of a path; the root is the component `/`.
pub open spec fn components_of(path: Seq<char>) -> Seq<Seq<char>> {
    (if path.len() > 0 && path[0] == '/' {
        seq!["/"@]
    } else {
        seq![]
    }) + kept(pieces(path, '/'))
}

/// The components of a path.
pub fn components(path: &str) -> (parts: Vec<String>)
    ensures
        texts(parts@) == components_of(path@),
{
    let chars = chars_of(path);
    let cut = split_at_char(chars.as_slice(), '/');
    let ghost all = views(cut@);
    let mut parts: Vec<String> = Vec::new();
    assert(texts(parts@) =~= seq![]);
    if chars.len() > 0 && chars[0] == '/' {
        let root = owned("/");
        parts.push(root);
        assert(texts(parts@) =~= seq!["/"@]);
    }
    let ghost root = texts(parts@);
    let mut i: usize = 0;
    assert(root + kept(all.take(0)) =~= root);
    while i < cut.len()
        invariant
            all == views(cut@),
            i <= all.len(),
            texts(parts@) == root + kept(all.take(i as int)),
        decreases all.len() - i,
    {
        assert(all[i as int] == cut@[i as int]@);
        assert(all.take(i + 1).drop_last() =~= all.take(i as int));
        if cut[i].len() > 0 && (i == 0 || !spells(cut[i], ".")) {
            let ghost before = parts@;
            parts.push(string_of(cut[i]));
            assert(texts(parts@) =~= texts(before).push(all[i as int]));
            assert(texts(parts@) =~= root + kept(all.take(i + 1)));
        }
        i = i + 1;
    }
    assert(all.take(i as int) =~= all);
    parts
}

/// Whether a path is another or lies under it.
pub open spec fn is_under(path: Seq<char>, root: Seq<char>) -> bool {
    let inner = components_of(path);
    let outer = components_of(root);
    inner.len() >= outer.len() && inner.take(outer.len() as int) == outer
}

/// Whether a path is another or lies under it.
pub fn under(path: &str, root: &str) -> (yes: bool)
    ensures
        yes == is_under(path@, root@),
{
    let inner = components(path);
    let outer = components(root);
    let ghost whole = texts(inner@);
    let ghost start = texts(outer@);
    if inner.len() < outer.len() {
        return false;
    }
    let mut i: usize = 0;
    while i < outer.len()
        invariant
            whole == texts(inner@),
            start == texts(outer@),
            whole == components_of(path@),
            start == components_of(root@),
            i <= start.len() <= whole.len(),
            forall|j: int| 0 <= j < i ==> whole[j] == #[trigger] start[j],
        decreases start.len() - i,
    {
        assert(whole[i as int] == inner@[i as int]@);
        assert(start[i as int] == outer@[i as int]@);
        if !equal(inner[i].as_str(), outer[i].as_str()) {
            assert(whole.take(start.len() as int)[i as int] != start[i as int]);
            return false;
        }
        i = i + 1;
    }
    assert(whole.take(start.len() as int) =~= start);
    true
}

/// The mark of a component by kind: the root, `.`, `..`, names.
pub open spec fn grade(component: Seq<char>) -> char {
    if component == "/"@ {
        '\u{1}'
    } else if component == "."@ {
        '\u{2}'
    } else if component == ".."@ {
        '\u{3}'
    } else {
        '\u{4}'
    }
}

/// The sort key of components: each with its mark in front and a NUL behind.
pub open spec fn key_of(parts: Seq<Seq<char>>) -> Seq<char>
    decreases parts.len(),
{
    if parts.len() == 0 {
        seq![]
    } else {
        key_of(parts.drop_last()).push(grade(parts.last())) + parts.last().push('\0')
    }
}

/// The text by which paths are sorted: component by component rather than
/// character by character, so that what is in a directory stands together. A NUL
/// sorts before everything a name can hold.
pub open spec fn sort_key(path: Seq<char>) -> Seq<char> {
    key_of(components_of(path))
}

fn grade_of(component: &str) -> (mark: char)
    ensures
        mark == grade(component@),
{
    if equal(component, "/") {
        '\u{1}'
    } else if equal(component, ".") {
        '\u{2}'
    } else if equal(component, "..") {
        '\u{3}'
    } else {
        '\u{4}'
    }
}

/// The text by which paths are sorted.
pub fn path_key(path: &str) -> (key: String)
    ensures
        key@ == sort_key(path@),
{
    let parts = components(path);
    let ghost all = texts(parts@);
    let mut key = String::new();
    let mut i: usize = 0;
    assert(key@ =~= key_of(all.take(0)));
    while i < parts.len()
        invariant
            all == texts(parts@),
            i <= all.len(),
            key@ == key_of(all.take(i as int)),
        decreases all.len() - i,
    {
        assert(all[i as int] == parts@[i as int]@);
        assert(all.take(i + 1).drop_last() =~= all.take(i as int));
        let ghost before = key@;
        let mark = grade_of(parts[i].as_str());
        key.push(mark);
        append(&mut key, parts[i].as_str());
        key.push('\0');
        assert(key@ =~= before.push(mark) + all[i as int].push('\0'));
        i = i + 1;
    }
    assert(all.take(i as int) =~= all);
    key
}

/// A path lies under itself, and what lies under a path that lies under another
/// lies under that one too.
pub proof fn law_being_under_is_nested(a: Seq<char>, b: Seq<char>, c: Seq<char>)
    ensures
        is_under(a, a),
        is_under(a, b) && is_under(b, c) ==> is_under(a, c),
{
    let x = components_of(a);
    let y = components_of(b);
    let z = components_of(c);
    assert(x.take(x.len() as int) =~= x);
    if is_under(a, b) && is_under(b, c) {
        assert(x.take(z.len() as int) =~= x.take(y.len() as int).take(z.len() as int));
    }
}

/// A name behind a path is one more component; a slash or a dot behind it is none, and
/// two dots are one.
pub proof fn law_a_name_is_one_more_component(path: Seq<char>, name: Seq<char>)
    requires
        path.len() > 0,
        forall|i: int| 0 <= i < name.len() ==> #[trigger] name[i] != '/',
    ensures
        name.len() > 0 && name != seq!['.'] ==> components_of(path.push('/') + name)
            == components_of(path).push(name),
        name == seq!['.'] || name.len() == 0 ==> components_of(path.push('/') + name)
            == components_of(path),
{
    reveal_strlit(".");
    assert("."@ =~= seq!['.']);
    let whole = path.push('/') + name;
    law_pieces_stand_between_separators(path, '/', name);
    law_pieces_stand_between_separators(name, '/', name);
    assert(pieces(whole, '/') =~= pieces(path, '/').push(name));
    assert(pieces(path, '/').push(name).drop_last() =~= pieces(path, '/'));
    crate::text::lemma_pieces_len(path, '/');
    assert(whole[0] == path[0]);
    assert(components_of(whole) =~= if counts(name, false) {
        components_of(path).push(name)
    } else {
        components_of(path)
    });
}

/// What is in a directory is under it, and what merely has a longer name is not.
pub proof fn law_a_directory_is_no_name_prefix(path: Seq<char>, name: Seq<char>, other: Seq<char>)
    requires
        path.len() > 0,
        name.len() > 0,
        other.len() > 0,
        name != seq!['.'],
        other != seq!['.'],
        name != other,
        forall|i: int| 0 <= i < name.len() ==> #[trigger] name[i] != '/',
        forall|i: int| 0 <= i < other.len() ==> #[trigger] other[i] != '/',
    ensures
        is_under(path.push('/') + name, path),
        !is_under(path, path.push('/') + name),
        !is_under(path.push('/') + name, path.push('/') + other),
{
    law_a_name_is_one_more_component(path, name);
    law_a_name_is_one_more_component(path, other);
    let outer = components_of(path);
    assert(outer.push(name).take(outer.len() as int) =~= outer);
    assert(outer.push(name).take(outer.len() as int + 1) =~= outer.push(name));
    assert(outer.push(name).last() == name);
    assert(outer.push(other).last() == other);
}

/// The sort key of what is in a directory starts with that of the directory, so that
/// what is in it stands together.
pub proof fn law_sort_keys_are_nested(path: Seq<char>, name: Seq<char>)
    requires
        path.len() > 0,
        name.len() > 0,
        name != seq!['.'],
        name != seq!['.', '.'],
        forall|i: int| 0 <= i < name.len() ==> #[trigger] name[i] != '/',
    ensures
        sort_key(path.push('/') + name) == sort_key(path).push('\u{4}') + name.push('\0'),
        sort_key(path.push('/') + seq!['.', '.']) == sort_key(path).push('\u{3}')
            + seq!['.', '.', '\0'],
{
    reveal_strlit("/");
    reveal_strlit(".");
    reveal_strlit("..");
    assert("/"@ =~= seq!['/']);
    assert("."@ =~= seq!['.']);
    assert(".."@ =~= seq!['.', '.']);
    let up = seq!['.', '.'];
    assert(up.len() == 2 && seq!['.'].len() == 1);
    law_a_name_is_one_more_component(path, name);
    law_a_name_is_one_more_component(path, up);
    let parts = components_of(path);
    assert(parts.push(name).drop_last() =~= parts);
    assert(parts.push(up).drop_last() =~= parts);
    assert(name[0] != '/');
    assert(seq!['/'][0] == '/');
    assert(up[0] != '/');
    assert(up.push('\0') =~= seq!['.', '.', '\0']);
}

/// A single name is one component, behind a slash the second after the root, and a dot is
/// one only where a path starts with it.
pub proof fn law_a_single_name_is_one_component(name: Seq<char>)
    requires
        name.len() > 0,
        forall|i: int| 0 <= i < name.len() ==> #[trigger] name[i] != '/',
    ensures
        components_of(name) == seq![name],
        name != seq!['.'] ==> components_of(seq!['/'] + name) == seq![seq!['/'], name],
        components_of(seq!['/', '.']) == seq![seq!['/']],
        components_of(seq!['/']) == seq![seq!['/']],
        components_of(Seq::<char>::empty()).len() == 0,
{
    reveal_strlit("/");
    reveal_strlit(".");
    assert("/"@ =~= seq!['/']);
    assert("."@ =~= seq!['.']);
    let none = Seq::<char>::empty();
    let dot = seq!['.'];
    law_pieces_stand_between_separators(name, '/', name);
    law_pieces_stand_between_separators(none, '/', name);
    law_pieces_stand_between_separators(none, '/', none);
    law_pieces_stand_between_separators(none, '/', dot);
    law_pieces_stand_between_separators(dot, '/', dot);
    assert(pieces(none, '/') =~= seq![none]);
    assert(none.push('/') + name =~= seq!['/'] + name);
    assert(none.push('/') + none =~= seq!['/']);
    assert(none.push('/') + dot =~= seq!['/', '.']);
    assert(pieces(seq!['/'] + name, '/') =~= seq![none, name]);
    assert(pieces(seq!['/'], '/') =~= seq![none, none]);
    assert(pieces(seq!['/', '.'], '/') =~= seq![none, dot]);
    assert(seq![name].drop_last() =~= seq![]);
    assert(seq![none].drop_last() =~= seq![]);
    assert(seq![none, name].drop_last() =~= seq![none]);
    assert(seq![none, none].drop_last() =~= seq![none]);
    assert(seq![none, dot].drop_last() =~= seq![none]);
    reveal_with_fuel(kept, 3);
    let root = seq![seq!['/']];
    assert(kept(seq![name]) =~= seq![name]);
    assert(kept(seq![none, name]) =~= if name != dot {
        seq![name]
    } else {
        seq![]
    });
    assert(components_of(name) =~= seq![name]);
    assert(name != dot ==> components_of(seq!['/'] + name) =~= seq![seq!['/'], name]);
    assert(components_of(seq!['/', '.']) =~= root);
    assert(components_of(seq!['/']) =~= root);
}

} // verus!
