//! Whether what an archive names stays below the directory it is unpacked into.
use vstd::prelude::*;
use vstd::utf8;

use crate::error;
use crate::error::Error;
use crate::paths;
use crate::paths::{goes_up, path_segments};
use crate::text;
use crate::text::{chars_of, copy_text, string_of};

verus! {

/// A byte that ends a piece of a stored path: either slash.
pub open spec fn is_slash(b: u8) -> bool {
    b == 0x2F || b == 0x5C
}

/// The piece of `s` from `i` to the next slash is two dots.
pub open spec fn up_piece_at(s: Seq<u8>, i: int) -> bool {
    &&& 0 <= i && i + 2 <= s.len()
    &&& s[i] == 0x2E && s[i + 1] == 0x2E
    &&& (i == 0 || is_slash(s[i - 1]))
    &&& (i + 2 == s.len() || is_slash(s[i + 2]))
}

/// A stored path leaves the directory it is unpacked into: it is absolute, or
/// one of its pieces is two dots. Both slashes separate.
pub open spec fn path_escapes(s: Seq<u8>) -> bool {
    (s.len() > 0 && is_slash(s[0])) || exists|i: int| up_piece_at(s, i)
}

/// Whether a stored path leaves the directory it is unpacked into.
pub fn raw_path_escapes(raw: &[u8]) -> (r: bool)
    ensures
        r == path_escapes(raw@),
{
    if raw.len() > 0 && (raw[0] == 0x2F || raw[0] == 0x5C) {
        return true;
    }
    let mut i: usize = 0;
    while i < raw.len() && raw.len() - i >= 2
        invariant
            forall|j: int| 0 <= j < i ==> !up_piece_at(raw@, j),
            i <= raw.len(),
        decreases raw.len() - i,
    {
        if raw[i] == 0x2E && raw[i + 1] == 0x2E
            && (i == 0 || raw[i - 1] == 0x2F || raw[i - 1] == 0x5C)
            && (i + 2 == raw.len() || raw[i + 2] == 0x2F || raw[i + 2] == 0x5C) {
            assert(up_piece_at(raw@, i as int));
            return true;
        }
        i = i + 1;
    }
    false
}

/// The piece of a path that leads to the directory above.
pub open spec fn up() -> Seq<char> {
    seq!['.', '.']
}

/// A path begins at the root.
pub open spec fn is_absolute(path: Seq<char>) -> bool {
    path.len() > 0 && path[0] == '/'
}

/// The character with a backslash turned into a slash.
pub open spec fn slashed_char(c: char) -> char {
    if c == '\\' { '/' } else { c }
}

/// A path with slashes for its backslashes.
pub open spec fn slashed(path: Seq<char>) -> Seq<char> {
    path.map_values(|c: char| slashed_char(c))
}

/// Where the pieces of a path lead from the directory `base`, told from the one
/// that is unpacked into, or nothing where they lead out of that.
pub open spec fn resolved(base: Seq<Seq<char>>, pieces: Seq<Seq<char>>) -> Option<Seq<Seq<char>>>
    decreases pieces.len(),
{
    if pieces.len() == 0 {
        Some(base)
    } else {
        match resolved(base, pieces.drop_last()) {
            None => None,
            Some(at) => if pieces.last() != up() {
                Some(at.push(pieces.last()))
            } else if at.len() == 0 {
                None
            } else {
                Some(at.drop_last())
            },
        }
    }
}

/// The place of an archive's path, told from the directory that is unpacked
/// into: nothing for a path that is absolute, goes up or names no place.
pub open spec fn place_below(path: Seq<char>) -> Option<Seq<Seq<char>>> {
    let pieces = paths::segments(slashed(path));
    if is_absolute(slashed(path)) || pieces.len() == 0 || pieces.contains(up()) {
        None
    } else {
        Some(pieces)
    }
}

/// A link at this place may point to `target`: it is relative, and leads nowhere
/// out of the directory that is unpacked into.
pub open spec fn link_stays(place: Seq<Seq<char>>, target: Seq<char>) -> bool {
    !is_absolute(target) && resolved(place.drop_last(), paths::segments(target)) is Some
}

/// The texts that strings hold.
pub open spec fn texts(v: Seq<String>) -> Seq<Seq<char>> {
    v.map_values(|s: String| s@)
}

/// The characters with slashes for backslashes.
fn with_slashes(path: &str) -> (r: Vec<char>)
    ensures
        r@ == slashed(path@),
{
    let cs = chars_of(path);
    let mut out: Vec<char> = Vec::new();
    let mut i: usize = 0;
    while i < cs.len()
        invariant
            i <= cs.len(),
            cs@ == path@,
            out@ =~= slashed(path@.take(i as int)),
        decreases cs.len() - i,
    {
        let c = if cs[i] == '\\' { '/' } else { cs[i] };
        out.push(c);
        i = i + 1;
        assert(out@ =~= slashed(path@.take(i as int)));
    }
    assert(path@.take(i as int) =~= path@);
    out
}

/// The pieces of the place of an archive's path below the directory that is
/// unpacked into. A path that would leave it is refused.
pub fn safe_join(path: &str) -> (r: Result<Vec<String>, Error>)
    ensures
        match place_below(path@) {
            Some(place) => r matches Ok(v) && texts(v@) == place,
            None => error::fails_with(r, error::ErrorView::PathTraversal(path@)),
        },
{
    let cs = with_slashes(path);
    if cs.len() > 0 && cs[0] == '/' {
        return Err(Error::PathTraversal(copy_text(path)));
    }
    let pieces = path_segments(cs.as_slice());
    let ghost all = text::runs(pieces@);
    if pieces.len() == 0 {
        return Err(Error::PathTraversal(copy_text(path)));
    }
    let mut out: Vec<String> = Vec::new();
    let mut i: usize = 0;
    while i < pieces.len()
        invariant
            i <= pieces.len(),
            all == text::runs(pieces@),
            all == paths::segments(slashed(path@)),
            texts(out@) =~= all.take(i as int),
            forall|j: int| 0 <= j < i ==> all[j] != up(),
        decreases pieces.len() - i,
    {
        if goes_up(&pieces[i]) {
            assert(all[i as int] == up());
            return Err(Error::PathTraversal(copy_text(path)));
        }
        let ghost before = out@;
        let piece = string_of(pieces[i].as_slice());
        out.push(piece);
        assert(texts(out@) =~= texts(before).push(piece@));
        i = i + 1;
    }
    assert(all.take(i as int) =~= all);
    Ok(out)
}

/// Where the first pieces of a path lead out, the path does.
proof fn leading_out_is_final(base: Seq<Seq<char>>, pieces: Seq<Seq<char>>, i: int)
    requires
        0 <= i <= pieces.len(),
        resolved(base, pieces.take(i)) is None,
    ensures
        resolved(base, pieces) is None,
    decreases pieces.len(),
{
    if i == pieces.len() {
        assert(pieces.take(i) =~= pieces);
    } else {
        assert(pieces.drop_last().take(i) =~= pieces.take(i));
        leading_out_is_final(base, pieces.drop_last(), i);
    }
}

/// Whether a link that an archive names may point where it does: an error where
/// the link itself or what it points to would leave the directory that is
/// unpacked into.
pub fn safe_symlink_target(path: &str, target: &str) -> (r: Result<(), Error>)
    ensures
        match place_below(path@) {
            None => error::fails_with(r, error::ErrorView::PathTraversal(path@)),
            Some(place) => if link_stays(place, target@) {
                r is Ok
            } else {
                error::fails_with(r, error::ErrorView::PathTraversal(target@))
            },
        },
{
    let parts = match safe_join(path) {
        Err(e) => {
            return Err(e);
        },
        Ok(v) => v,
    };
    let ghost base = texts(parts@).drop_last();
    let cs = chars_of(target);
    if cs.len() > 0 && cs[0] == '/' {
        return Err(Error::PathTraversal(copy_text(target)));
    }
    let pieces = path_segments(cs.as_slice());
    let ghost all = text::runs(pieces@);
    let mut depth: u128 = (parts.len() - 1) as u128;
    let mut i: usize = 0;
    assert(all.take(0) =~= Seq::<Seq<char>>::empty());
    while i < pieces.len()
        invariant
            i <= pieces.len(),
            all == text::runs(pieces@),
            all == paths::segments(target@),
            !is_absolute(target@),
            place_below(path@) == Some(texts(parts@)),
            base == texts(parts@).drop_last(),
            depth <= base.len() + i,
            base.len() + 1 == parts.len(),
            resolved(base, all.take(i as int)) matches Some(at) && at.len() == depth,
        decreases pieces.len() - i,
    {
        proof {
            assert(all.take(i + 1).drop_last() =~= all.take(i as int));
            assert(all.take(i + 1).last() == pieces@[i as int]@);
        }
        if goes_up(&pieces[i]) {
            if depth == 0 {
                proof {
                    leading_out_is_final(base, all, i + 1);
                }
                return Err(Error::PathTraversal(copy_text(target)));
            }
            depth = depth - 1;
        } else {
            depth = depth + 1;
        }
        i = i + 1;
    }
    assert(all.take(i as int) =~= all);
    Ok(())
}

/// Pieces that never go up lead to where they name.
proof fn plain_pieces_resolve(base: Seq<Seq<char>>, pieces: Seq<Seq<char>>)
    requires
        !pieces.contains(up()),
    ensures
        resolved(base, pieces) == Some(base + pieces),
    decreases pieces.len(),
{
    if pieces.len() == 0 {
        assert(base + pieces =~= base);
    } else {
        let init = pieces.drop_last();
        assert(!init.contains(up())) by {
            if init.contains(up()) {
                let i = choose|i: int| 0 <= i < init.len() && init[i] == up();
                assert(pieces[i] == up());
            }
        }
        plain_pieces_resolve(base, init);
        assert(pieces[pieces.len() - 1] == pieces.last());
        assert((base + init).push(pieces.last()) =~= base + pieces);
    }
}

/// A path that is not refused leads to its place, and the place lies below the
/// directory that is unpacked into, which it is not itself.
pub proof fn safe_paths_stay_below(path: Seq<char>)
    requires
        place_below(path) is Some,
    ensures
        place_below(path)->0.len() > 0,
        resolved(Seq::empty(), paths::segments(slashed(path))) == place_below(path),
{
    let pieces = paths::segments(slashed(path));
    plain_pieces_resolve(Seq::empty(), pieces);
    assert(Seq::<Seq<char>>::empty() + pieces =~= pieces);
}

/// Cutting a text at a separator in it cuts what stands before it and what stands
/// behind it.
proof fn split_at_separator(head: Seq<char>, tail: Seq<char>, sep: char)
    ensures
        text::split(head.push(sep) + tail, sep) == text::split(head, sep) + text::split(tail, sep),
    decreases tail.len(),
{
    let all = head.push(sep) + tail;
    text::split_is_not_empty(tail, sep);
    if tail.len() == 0 {
        assert(all =~= head.push(sep));
        assert(all.drop_last() =~= head);
        assert(text::split(all, sep) =~= text::split(head, sep) + text::split(tail, sep));
    } else {
        let init = tail.drop_last();
        text::split_is_not_empty(init, sep);
        split_at_separator(head, init, sep);
        assert(all.drop_last() =~= head.push(sep) + init);
        assert(all.last() == tail.last());
        assert(text::split(all, sep) =~= text::split(head, sep) + text::split(tail, sep));
    }
}

/// A piece that names something is kept.
proof fn named_pieces_are_kept(parts: Seq<Seq<char>>, piece: Seq<char>)
    requires
        parts.contains(piece),
        paths::names_something(piece),
    ensures
        paths::kept(parts).contains(piece),
    decreases parts.len(),
{
    let i = choose|i: int| 0 <= i < parts.len() && parts[i] == piece;
    let init = parts.drop_last();
    let all = paths::kept(parts);
    if i == parts.len() - 1 {
        assert(all[all.len() - 1] == piece);
    } else {
        assert(init[i] == piece);
        named_pieces_are_kept(init, piece);
        let k = choose|k: int| 0 <= k < paths::kept(init).len() && paths::kept(init)[k] == piece;
        assert(all[k] == piece);
    }
}

/// Two dots between slashes are a piece of their path.
proof fn lone_dots_are_a_piece(head: Seq<char>, tail: Seq<char>)
    requires
        head.len() == 0 || head.last() == '/',
        tail.len() == 0 || tail[0] == '/',
    ensures
        paths::segments(head + up() + tail).contains(up()),
{
    let rest = up() + tail;
    let pieces = text::split(rest, '/');
    text::split_of_one(up(), '/');
    if tail.len() == 0 {
        assert(rest =~= up());
        assert(pieces[0] == up());
    } else {
        assert(rest =~= up().push('/') + tail.skip(1));
        split_at_separator(up(), tail.skip(1), '/');
        assert(pieces[0] == up());
    }
    let all = text::split(head + up() + tail, '/');
    if head.len() == 0 {
        assert(head + up() + tail =~= rest);
        assert(all[0] == up());
    } else {
        assert(head + up() + tail =~= head.drop_last().push('/') + rest);
        split_at_separator(head.drop_last(), rest, '/');
        assert(all[text::split(head.drop_last(), '/').len() as int] == up());
    }
    assert(up()[0] == '.' && up().len() == 2);
    named_pieces_are_kept(all, up());
}

/// A character of one byte is read as that byte.
proof fn first_byte_is_read(bytes: Seq<u8>)
    requires
        utf8::valid_utf8(bytes),
        bytes.len() > 0,
        bytes[0] < 0x80,
    ensures
        utf8::decode_utf8(bytes) == seq![bytes[0] as char] + utf8::decode_utf8(bytes.skip(1)),
        utf8::valid_utf8(bytes.skip(1)),
{
    let b = bytes[0];
    assert(b < 0x80 ==> b & 0x7F == b) by (bit_vector);
    assert(utf8::pop_first_scalar(bytes) =~= bytes.skip(1));
}

/// A stored path that leaves the directory it is unpacked into is refused, so
/// that nothing is written at the place it names.
pub proof fn stored_escapes_are_refused(raw: Seq<u8>)
    requires
        utf8::valid_utf8(raw),
        path_escapes(raw),
    ensures
        place_below(utf8::decode_utf8(raw)) is None,
{
    let path = utf8::decode_utf8(raw);
    if raw.len() > 0 && is_slash(raw[0]) {
        first_byte_is_read(raw);
        assert(slashed(path)[0] == '/');
    } else {
        let i = choose|i: int| up_piece_at(raw, i);
        let head = raw.subrange(0, i);
        let back = raw.subrange(i, raw.len() as int);
        utf8::is_char_boundary_iff_not_is_continuation_byte(raw, i);
        utf8::valid_utf8_split(raw, i);
        utf8::decode_utf8_split(raw, i);
        first_byte_is_read(back);
        first_byte_is_read(back.skip(1));
        let tail = back.skip(1).skip(1);
        let rest = utf8::decode_utf8(tail);
        if tail.len() > 0 {
            assert(tail[0] == raw[i + 2]);
            first_byte_is_read(tail);
        }
        let front = utf8::decode_utf8(head);
        if i > 0 {
            assert(head[i - 1] == raw[i - 1]);
            utf8::is_char_boundary_iff_not_is_continuation_byte(head, i - 1);
            utf8::decode_utf8_split(head, i - 1);
            let last = head.subrange(i - 1, head.len() as int);
            utf8::valid_utf8_split(head, i - 1);
            first_byte_is_read(last);
            assert(last.skip(1) =~= Seq::<u8>::empty());
        }
        assert(path =~= front + up() + rest);
        assert(slashed(path) =~= slashed(front) + up() + slashed(rest));
        lone_dots_are_a_piece(slashed(front), slashed(rest));
    }
}

proof fn climb_resolves(base: Seq<Seq<char>>, n: nat)
    ensures
        resolved(base, Seq::new(n, |k: int| up())) == if n <= base.len() {
            Some(base.take(base.len() - n))
        } else {
            None
        },
    decreases n,
{
    let all = Seq::new(n, |k: int| up());
    if n == 0 {
        assert(base.take(base.len() as int) =~= base);
    } else {
        climb_resolves(base, (n - 1) as nat);
        assert(all.drop_last() =~= Seq::new((n - 1) as nat, |k: int| up()));
        assert(all.last() == up());
        if n <= base.len() {
            assert(base.take(base.len() - (n - 1)).drop_last() =~= base.take(base.len() - n));
        }
    }
}

proof fn resolved_goes_on(base: Seq<Seq<char>>, a: Seq<Seq<char>>, b: Seq<Seq<char>>)
    ensures
        resolved(base, a + b) == match resolved(base, a) {
            Some(at) => resolved(at, b),
            None => None,
        },
    decreases b.len(),
{
    if b.len() == 0 {
        assert(a + b =~= a);
    } else {
        resolved_goes_on(base, a, b.drop_last());
        assert((a + b).drop_last() =~= a + b.drop_last());
        assert((a + b).last() == b.last());
    }
}

/// A link may climb as many directories as it lies in, and then go down anywhere; one more
/// leads out. A target from the root on leads out in any case.
pub proof fn links_climb_as_far_as_they_lie(place: Seq<Seq<char>>, target: Seq<char>, n: nat, down: Seq<Seq<char>>)
    requires
        place.len() > 0,
        paths::segments(target) == Seq::new(n, |k: int| up()) + down,
        forall|k: int| 0 <= k < down.len() ==> #[trigger] down[k] != seq!['.', '.'],
    ensures
        target.len() > 0 && target[0] == '/' ==> !link_stays(place, target),
        target.len() == 0 || target[0] != '/' ==> link_stays(place, target) == (n < place.len()),
{
    let base = place.drop_last();
    climb_resolves(base, n);
    resolved_goes_on(base, Seq::new(n, |k: int| up()), down);
    assert(!down.contains(up()));
    if n <= base.len() {
        plain_pieces_resolve(base.take(base.len() - n), down);
    }
}

/// Pieces of a path that are neither dots nor hold a slash of either kind, with slashes of
/// either kind between them, are unpacked where they name.
pub proof fn ordinary_paths_are_unpacked(path: Seq<char>, parts: Seq<Seq<char>>)
    requires
        parts.len() > 0,
        forall|k: int|
            0 <= k < parts.len() ==> (#[trigger] parts[k]).len() > 0 && parts[k] != seq!['.'] && parts[k] != seq!['.', '.']
                && !parts[k].contains('/'),
        path.len() == text::join(parts, '/').len(),
        forall|k: int|
            0 <= k < path.len() ==> (#[trigger] path[k] == text::join(parts, '/')[k] && path[k] != '\\' || path[k] == '\\'
                && text::join(parts, '/')[k] == '/'),
    ensures
        place_below(path) == Some(parts),
{
    let whole = text::join(parts, '/');
    assert(slashed(path) =~= whole);
    assert forall|k: int| 0 <= k < parts.len() implies paths::is_segment(#[trigger] parts[k]) by {}
    paths::segments_of_joined_pieces(parts);
    assert(!parts.contains(up()));
    assert(whole.len() > 0 && whole[0] != '/') by {
        first_of_joined(parts);
    }
}

/// A joined path begins as its first piece does.
pub proof fn first_of_joined(parts: Seq<Seq<char>>)
    requires
        parts.len() > 0,
        parts[0].len() > 0,
    ensures
        text::join(parts, '/').len() > 0,
        text::join(parts, '/')[0] == parts[0][0],
        !parts[0].contains('/') ==> text::join(parts, '/')[0] != '/',
    decreases parts.len(),
{
    if parts.len() > 1 {
        assert(parts.drop_last()[0] == parts[0]);
        first_of_joined(parts.drop_last());
    }
    assert(parts[0].contains(parts[0][0]));
}

/// A path with a piece that goes up is unpacked nowhere, and neither is one from the root
/// on nor one that names nothing.
pub proof fn escaping_paths_are_refused(path: Seq<char>)
    requires
        (path.len() > 0 && (path[0] == '/' || path[0] == '\\')) || paths::segments(slashed(path)).contains(seq!['.', '.'])
            || paths::segments(slashed(path)).len() == 0,
    ensures
        place_below(path) is None,
{
}

} // verus!
