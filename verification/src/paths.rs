//! The parts of a slash-separated path.
use vstd::prelude::*;
use vstd::string::StringExecFns;

use crate::text;
use crate::text::{chars_of, copy_chars, find_last, split_chars};
use crate::text::to_lower_char;

verus! {

/// A piece between slashes that names something: not empty and not a dot.
pub open spec fn names_something(p: Seq<char>) -> bool {
    p.len() > 0 && p != seq!['.']
}

/// The pieces of `parts` that name something, in order.
pub open spec fn kept(parts: Seq<Seq<char>>) -> Seq<Seq<char>>
    decreases parts.len(),
{
    if parts.len() == 0 {
        Seq::empty()
    } else if names_something(parts.last()) {
        kept(parts.drop_last()).push(parts.last())
    } else {
        kept(parts.drop_last())
    }
}

/// The pieces of a path that name something.
pub open spec fn segments(path: Seq<char>) -> Seq<Seq<char>> {
    kept(text::split(path, '/'))
}

/// The last piece of a path, unless it goes up.
pub open spec fn file_name(path: Seq<char>) -> Option<Seq<char>> {
    let segs = segments(path);
    if segs.len() == 0 || segs.last() == seq!['.', '.'] {
        None
    } else {
        Some(segs.last())
    }
}

/// A file name without its extension. A leading dot starts no extension.
pub open spec fn stem_of_name(name: Seq<char>) -> Seq<char> {
    let dot = text::last_index(name, '.');
    if dot <= 0 {
        name
    } else {
        name.take(dot)
    }
}

/// What follows the last dot of a file name, unless that dot leads it.
pub open spec fn extension_of_name(name: Seq<char>) -> Option<Seq<char>> {
    let dot = text::last_index(name, '.');
    if dot <= 0 {
        None
    } else {
        Some(name.skip(dot + 1))
    }
}

/// The file name of a path without its extension.
pub open spec fn file_stem(path: Seq<char>) -> Option<Seq<char>> {
    match file_name(path) {
        Some(n) => Some(stem_of_name(n)),
        None => None,
    }
}

/// The extension of a path's file name.
pub open spec fn extension(path: Seq<char>) -> Option<Seq<char>> {
    match file_name(path) {
        Some(n) => extension_of_name(n),
        None => None,
    }
}

/// Whether the piece names something.
pub fn is_name(p: &Vec<char>) -> (r: bool)
    ensures
        r == names_something(p@),
{
    if p.len() == 0 {
        false
    } else if p.len() == 1 && p[0] == '.' {
        assert(p@ =~= seq!['.']);
        false
    } else {
        proof {
            if p@ == seq!['.'] {
                assert(p@.len() == 1 && p@[0] == '.');
            }
        }
        true
    }
}

/// Whether the piece is two dots.
pub fn goes_up(p: &Vec<char>) -> (r: bool)
    ensures
        r == (p@ == seq!['.', '.']),
{
    let r = p.len() == 2 && p[0] == '.' && p[1] == '.';
    proof {
        if r {
            assert(p@ =~= seq!['.', '.']);
        }
    }
    r
}

/// The pieces of a path that name something.
pub fn path_segments(path: &[char]) -> (r: Vec<Vec<char>>)
    ensures
        text::runs(r@) == segments(path@),
{
    let parts = split_chars(path, '/');
    let ghost all = text::runs(parts@);
    let mut out: Vec<Vec<char>> = Vec::new();
    let mut i: usize = 0;
    assert(text::runs(out@) =~= kept(all.take(0)));
    while i < parts.len()
        invariant
            i <= parts.len(),
            all == text::runs(parts@),
            text::runs(out@) == kept(all.take(i as int)),
        decreases parts.len() - i,
    {
        proof {
            assert(all.take(i + 1).drop_last() =~= all.take(i as int));
            assert(all.take(i + 1).last() == parts@[i as int]@);
        }
        if is_name(&parts[i]) {
            let ghost before = out@;
            let piece = copy_chars(parts[i].as_slice(), 0, parts[i].len());
            assert(piece@ =~= parts@[i as int]@);
            out.push(piece);
            assert(text::runs(out@) =~= text::runs(before).push(parts@[i as int]@));
        }
        i = i + 1;
    }
    assert(all.take(i as int) =~= all);
    out
}

/// The last piece of a path, unless it goes up.
pub fn path_file_name(path: &[char]) -> (r: Option<Vec<char>>)
    ensures
        match r {
            Some(n) => file_name(path@) == Some(n@),
            None => file_name(path@) is None,
        },
{
    let mut segs = path_segments(path);
    let ghost all = text::runs(segs@);
    match segs.pop() {
        None => None,
        Some(last) => {
            assert(all.last() == last@);
            if goes_up(&last) {
                None
            } else {
                Some(last)
            }
        },
    }
}

/// A file name without its extension.
pub fn name_stem(name: &[char]) -> (r: Vec<char>)
    ensures
        r@ == stem_of_name(name@),
{
    match find_last(name, '.') {
        Some(dot) if dot > 0 => {
            let v = copy_chars(name, 0, dot);
            assert(v@ =~= name@.take(dot as int));
            v
        },
        _ => {
            let v = copy_chars(name, 0, name.len());
            assert(v@ =~= name@);
            v
        },
    }
}

/// The extension of a file name.
pub fn name_extension(name: &[char]) -> (r: Option<Vec<char>>)
    ensures
        match r {
            Some(e) => extension_of_name(name@) == Some(e@),
            None => extension_of_name(name@) is None,
        },
{
    match find_last(name, '.') {
        Some(dot) if dot > 0 => {
            let v = copy_chars(name, dot + 1, name.len());
            assert(v@ =~= name@.skip(dot + 1));
            Some(v)
        },
        _ => None,
    }
}

/// The file name of a path without its extension.
pub fn path_file_stem(path: &[char]) -> (r: Option<Vec<char>>)
    ensures
        match r {
            Some(n) => file_stem(path@) == Some(n@),
            None => file_stem(path@) is None,
        },
{
    match path_file_name(path) {
        Some(n) => Some(name_stem(&n)),
        None => None,
    }
}

/// The name is there and its extension is `ext`, ASCII letter case aside.
pub open spec fn has_extension(name: Option<Seq<char>>, ext: Seq<char>) -> bool {
    name matches Some(n) && (extension(n) matches Some(e) && text::lower_chars(e) == text::lower_chars(ext))
}

/// Whether the name is there and its extension is `ext`, ASCII letter case aside.
pub fn extension_is(name: Option<&str>, ext: &str) -> (r: bool)
    ensures
        r == has_extension(text::opt_text(name), ext@),
{
    match name {
        None => false,
        Some(n) => {
            let cs = chars_of(n);
            match path_file_name(&cs) {
                None => false,
                Some(f) => match name_extension(&f) {
                    None => false,
                    Some(e) => {
                        let want = chars_of(ext);
                        equal_ignoring_case(&e, &want)
                    },
                },
            }
        },
    }
}

/// Whether two runs are equal, ASCII letter case aside.
pub fn equal_ignoring_case(a: &[char], b: &[char]) -> (r: bool)
    ensures
        r == (text::lower_chars(a@) == text::lower_chars(b@)),
{
    if a.len() != b.len() {
        assert(text::lower_chars(a@).len() != text::lower_chars(b@).len());
        return false;
    }
    let mut i: usize = 0;
    while i < a.len()
        invariant
            i <= a.len(),
            a.len() == b.len(),
            forall|j: int| 0 <= j < i ==> text::lower_chars(a@)[j] == text::lower_chars(b@)[j],
        decreases a.len() - i,
    {
        if to_lower_char(a[i]) != to_lower_char(b[i]) {
            assert(text::lower_chars(a@)[i as int] != text::lower_chars(b@)[i as int]);
            return false;
        }
        i = i + 1;
    }
    assert(text::lower_chars(a@) =~= text::lower_chars(b@));
    true
}

/// `name` below `parent`. An absolute name stands for itself.
pub open spec fn joined(parent: Seq<char>, name: Seq<char>) -> Seq<char> {
    if name.len() > 0 && name[0] == '/' {
        name
    } else if parent.len() == 0 || parent.last() == '/' {
        parent + name
    } else {
        parent.push('/') + name
    }
}

/// `name` below `parent`.
pub fn join_path(parent: &str, name: &str) -> (r: String)
    ensures
        r@ == joined(parent@, name@),
{
    let p = chars_of(parent);
    let n = chars_of(name);
    if n.len() > 0 && n[0] == '/' {
        return name.to_owned();
    }
    let mut s = parent.to_owned();
    if p.len() > 0 && p[p.len() - 1] != '/' {
        s.push('/');
    }
    s.append(name);
    assert(s@ =~= joined(parent@, name@));
    s
}

/// A piece of a path that names something: it is not empty, no single dot, and holds no
/// slash.
pub open spec fn is_segment(p: Seq<char>) -> bool {
    p.len() > 0 && p != seq!['.'] && !p.contains('/')
}

proof fn kept_of_two(a: Seq<Seq<char>>, b: Seq<Seq<char>>)
    ensures
        kept(a + b) == kept(a) + kept(b),
    decreases b.len(),
{
    if b.len() == 0 {
        assert(a + b =~= a);
        assert(kept(a) + kept(b) =~= kept(a));
    } else {
        assert((a + b).drop_last() =~= a + b.drop_last());
        assert((a + b).last() == b.last());
        kept_of_two(a, b.drop_last());
        if names_something(b.last()) {
            assert((kept(a) + kept(b.drop_last())).push(b.last()) =~= kept(a) + kept(b));
        }
    }
}

proof fn kept_are_kept(parts: Seq<Seq<char>>)
    requires
        forall|k: int| 0 <= k < parts.len() ==> is_segment(#[trigger] parts[k]),
    ensures
        kept(parts) == parts,
    decreases parts.len(),
{
    if parts.len() > 0 {
        let init = parts.drop_last();
        assert forall|k: int| 0 <= k < init.len() implies is_segment(#[trigger] init[k]) by {
            assert(init[k] == parts[k]);
        }
        kept_are_kept(init);
        assert(is_segment(parts[parts.len() - 1]));
        assert(init.push(parts.last()) =~= parts);
    } else {
        assert(parts =~= Seq::<Seq<char>>::empty());
    }
}

proof fn kept_name_something(parts: Seq<Seq<char>>)
    requires
        text::free_of(parts, '/'),
    ensures
        forall|k: int| 0 <= k < kept(parts).len() ==> is_segment(#[trigger] kept(parts)[k]),
    decreases parts.len(),
{
    if parts.len() > 0 {
        let init = parts.drop_last();
        assert(text::free_of(init, '/')) by {
            assert forall|i: int| 0 <= i < init.len() implies !(#[trigger] init[i]).contains('/') by {
                assert(init[i] == parts[i]);
            }
        }
        kept_name_something(init);
        assert(!parts[parts.len() - 1].contains('/'));
        assert forall|k: int| 0 <= k < kept(parts).len() implies is_segment(#[trigger] kept(parts)[k]) by {
            if k < kept(init).len() {
                assert(kept(parts)[k] == kept(init)[k]);
            }
        }
    }
}

/// Each piece of a path names something.
pub proof fn segments_name_something(path: Seq<char>)
    ensures
        forall|k: int| 0 <= k < segments(path).len() ==> is_segment(#[trigger] segments(path)[k]),
{
    text::pieces_are_free(path, '/');
    kept_name_something(text::split(path, '/'));
}

/// Pieces with slashes between them are the pieces of the path that they make.
pub proof fn segments_of_joined_pieces(parts: Seq<Seq<char>>)
    requires
        parts.len() > 0,
        forall|k: int| 0 <= k < parts.len() ==> is_segment(#[trigger] parts[k]),
    ensures
        segments(text::join(parts, '/')) == parts,
{
    assert(text::free_of(parts, '/'));
    text::split_undoes_join(parts, '/');
    kept_are_kept(parts);
}

proof fn split_of_two(a: Seq<char>, b: Seq<char>)
    ensures
        text::split(a.push('/') + b, '/') == text::split(a, '/') + text::split(b, '/'),
    decreases b.len(),
{
    let all = a.push('/') + b;
    if b.len() == 0 {
        assert(all =~= a.push('/'));
        assert(all.drop_last() =~= a);
        assert(text::split(all, '/') =~= text::split(a, '/') + text::split(b, '/'));
    } else {
        split_of_two(a, b.drop_last());
        text::split_is_not_empty(b.drop_last(), '/');
        assert(all.drop_last() =~= a.push('/') + b.drop_last());
        assert(text::split(all, '/') =~= text::split(a, '/') + text::split(b, '/'));
    }
}

proof fn no_segments_in_nothing()
    ensures
        segments(Seq::empty()) == Seq::<Seq<char>>::empty(),
{
    let none = Seq::<char>::empty();
    let parts = text::split(none, '/');
    assert(parts =~= seq![none]);
    assert(parts.drop_last() =~= Seq::<Seq<char>>::empty());
    assert(kept(parts.drop_last()) =~= Seq::<Seq<char>>::empty());
}

proof fn segments_of_two(a: Seq<char>, b: Seq<char>)
    ensures
        segments(a.push('/') + b) == segments(a) + segments(b),
{
    split_of_two(a, b);
    kept_of_two(text::split(a, '/'), text::split(b, '/'));
}

/// A name below a parent has the pieces of the parent and then its own. An absolute name
/// has its own alone.
pub proof fn joined_has_the_pieces_of_both(parent: Seq<char>, name: Seq<char>)
    ensures
        segments(joined(parent, name)) == if name.len() > 0 && name[0] == '/' {
            segments(name)
        } else {
            segments(parent) + segments(name)
        },
{
    if name.len() > 0 && name[0] == '/' {
    } else if parent.len() == 0 {
        no_segments_in_nothing();
        assert(parent =~= Seq::<char>::empty());
        assert(parent + name =~= name);
        assert(segments(parent) + segments(name) =~= segments(name));
    } else if parent.last() == '/' {
        let above = parent.drop_last();
        assert(above.push('/') =~= parent);
        segments_of_two(above, name);
        segments_of_two(above, Seq::empty());
        no_segments_in_nothing();
        assert(above.push('/') + Seq::<char>::empty() =~= parent);
        assert(segments(above) + Seq::<Seq<char>>::empty() =~= segments(above));
    } else {
        segments_of_two(parent, name);
    }
}

/// The file name of what lies below a parent is its own.
pub proof fn joined_ends_with_name(parent: Seq<char>, name: Seq<char>)
    requires
        is_segment(name),
        name != seq!['.', '.'],
    ensures
        file_name(joined(parent, name)) == Some(name),
        segments(joined(parent, name)) == segments(parent).push(name),
{
    assert(name[0] != '/') by {
        assert(name.contains(name[0]));
    }
    joined_has_the_pieces_of_both(parent, name);
    let one = seq![name];
    assert(one.len() > 0);
    segments_of_joined_pieces(one);
    assert(text::join(one, '/') == name);
    assert(segments(parent) + seq![name] =~= segments(parent).push(name));
}

/// A stem, a dot and an extension make a file name with this stem and this extension. A
/// name whose only dot leads it has no extension.
pub proof fn stem_and_extension_make_name(stem: Seq<char>, ext: Seq<char>)
    requires
        !ext.contains('.'),
    ensures
        stem.len() > 0 ==> stem_of_name(stem.push('.') + ext) == stem && extension_of_name(stem.push('.') + ext) == Some(ext),
        stem_of_name(ext) == ext && extension_of_name(ext) is None,
        stem_of_name(seq!['.'] + ext) == seq!['.'] + ext && extension_of_name(seq!['.'] + ext) is None,
{
    let name = stem.push('.') + ext;
    text::last_index_is_last(name, '.');
    text::last_index_is_last(ext, '.');
    let hidden = seq!['.'] + ext;
    text::last_index_is_last(hidden, '.');
    assert(name[stem.len() as int] == '.');
    let k = text::last_index(name, '.');
    if k > stem.len() {
        assert(ext[k - stem.len() - 1] == '.');
        assert(ext.contains('.'));
    }
    if k == stem.len() {
        assert(name.take(k) =~= stem);
        assert(name.skip(k + 1) =~= ext);
    }
    let j = text::last_index(ext, '.');
    if j >= 0 {
        assert(ext.contains(ext[j]));
    }
    let h = text::last_index(hidden, '.');
    if h > 0 {
        assert(ext[h - 1] == '.');
        assert(ext.contains('.'));
    }
}

/// The stem and the extension of a file in a directory are those of its name.
pub proof fn stem_and_extension_of_file(parent: Seq<char>, stem: Seq<char>, ext: Seq<char>)
    requires
        stem.len() > 0,
        !stem.contains('/'),
        !ext.contains('/'),
        !ext.contains('.'),
        ext.len() > 0,
    ensures
        file_stem(joined(parent, stem.push('.') + ext)) == Some(stem),
        extension(joined(parent, stem.push('.') + ext)) == Some(ext),
{
    let name = stem.push('.') + ext;
    assert(!name.contains('/')) by {
        if name.contains('/') {
            let k = choose|k: int| 0 <= k < name.len() && name[k] == '/';
            if k < stem.len() {
                assert(stem[k] == '/');
            } else {
                assert(ext[k - stem.len() - 1] == '/');
            }
        }
    }
    assert(name.len() >= 3);
    joined_ends_with_name(parent, name);
    stem_and_extension_make_name(stem, ext);
}

} // verus!
