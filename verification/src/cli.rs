//! The command line: its arguments, and the validation of the directory path.

use vstd::prelude::*;

use crate::seqs;
use crate::text;
use crate::text::{has_no, split_on};

verus! {

/// The command-line arguments: whether to recompute every digest, and the
/// directory to watch.
pub struct Args {
    pub full: bool,
    pub target_directory: String,
}

/// The pieces of a path between `/` separators, empty ones included.
pub open spec fn split_slash(s: Seq<char>) -> Seq<Seq<char>> {
    split_on(s, '/')
}

/// A piece that names something: neither empty nor `.`.
pub open spec fn is_named_piece(p: Seq<char>) -> bool {
    p.len() > 0 && p != seq!['.']
}

/// The components of a path other than its root: a leading `.` piece is
/// kept, then every piece that names something.
pub open spec fn components_of(pieces: Seq<Seq<char>>) -> Seq<Seq<char>> {
    (if pieces.len() > 0 && pieces[0] == seq!['.'] {
        seq![seq!['.']]
    } else {
        Seq::empty()
    }) + pieces.filter(|p: Seq<char>| is_named_piece(p))
}

/// The parts joined with `/` between them.
pub open spec fn join_slash(parts: Seq<Seq<char>>) -> Seq<char>
    decreases parts.len(),
{
    if parts.len() == 0 {
        Seq::empty()
    } else if parts.len() == 1 {
        parts[0]
    } else {
        join_slash(parts.drop_last()) + seq!['/'] + parts.last()
    }
}

/// A path rebuilt from its components: `/` if it starts with one, then its
/// components joined with `/`. Repeated separators, `.` pieces other than a
/// leading one, and a trailing `/` disappear.
pub open spec fn normalized_path(s: Seq<char>) -> Seq<char> {
    (if s.len() > 0 && s[0] == '/' {
        seq!['/']
    } else {
        Seq::empty()
    }) + join_slash(components_of(split_slash(s)))
}

/// The error for a path that is not a directory.
pub open spec fn invalid_directory_message(input: Seq<char>) -> Seq<char> {
    "'"@ + input + "' was not a valid directory path."@
}

proof fn lemma_split_slash_nonempty(s: Seq<char>)
    ensures
        split_slash(s).len() >= 1,
{
    text::lemma_split_on_nonempty(s, '/');
}

/// Completing one more piece adds it to the components when it is a
/// leading `.` or names something.
proof fn lemma_components_push(done: Seq<Seq<char>>, piece: Seq<char>)
    ensures
        components_of(done.push(piece)) == if (done.len() == 0 && piece == seq!['.'])
            || is_named_piece(piece) {
            components_of(done).push(piece)
        } else {
            components_of(done)
        },
{
    let named = |p: Seq<char>| is_named_piece(p);
    done.lemma_filter_push(piece, named);
    if done.len() == 0 {
        assert(done.filter(named) =~= Seq::<Seq<char>>::empty()) by {
            reveal(Seq::filter);
        }
    } else {
        assert(done.push(piece)[0] == done[0]);
    }
    assert(components_of(done.push(piece)) =~= (if (done.len() == 0 && piece == seq!['.'])
        || is_named_piece(piece) {
        components_of(done).push(piece)
    } else {
        components_of(done)
    }));
}

/// One more part joined after the others.
proof fn lemma_join_push(parts: Seq<Seq<char>>, part: Seq<char>)
    ensures
        join_slash(parts.push(part)) == if parts.len() == 0 {
            part
        } else {
            join_slash(parts) + seq!['/'] + part
        },
{
    assert(parts.push(part).drop_last() =~= parts);
}

/// Whether the characters `start..end` of `input` are the one piece `.`.
fn is_dot_piece(input: &str, start: usize, end: usize) -> (b: bool)
    requires
        start <= end <= input@.len(),
    ensures
        b == (input@.subrange(start as int, end as int) == seq!['.']),
{
    let b = end - start == 1 && input.get_char(start) == '.';
    if b {
        assert(input@.subrange(start as int, end as int) =~= seq!['.']);
    } else if end - start == 1 {
        assert(input@.subrange(start as int, end as int)[0] != '.');
        assert(input@.subrange(start as int, end as int) != seq!['.']);
    } else {
        assert(input@.subrange(start as int, end as int).len() != seq!['.'].len());
    }
    b
}

/// Rebuilds a path from its components (see [`normalized_path`]).
pub fn normalize_path(input: &str) -> (path: String)
    ensures
        path@ == normalized_path(input@),
{
    proof {
        reveal_strlit("/");
    }
    let n = input.unicode_len();
    let ghost s = input@;
    let mut out = String::new();
    if n > 0 && input.get_char(0) == '/' {
        out.append("/");
    }
    let ghost root: Seq<char> = if s.len() > 0 && s[0] == '/' {
        seq!['/']
    } else {
        Seq::empty()
    };
    assert(out@ =~= root);
    assert(s.take(0) =~= Seq::<char>::empty());
    assert(split_slash(Seq::<char>::empty()).drop_last() =~= Seq::<Seq<char>>::empty());
    assert(components_of(Seq::<Seq<char>>::empty()) =~= Seq::<Seq<char>>::empty()) by {
        reveal(Seq::filter);
    }
    let mut start: usize = 0;
    let mut i: usize = 0;
    let mut count: usize = 0;
    // The components written so far.
    let ghost mut comps: Seq<Seq<char>> = Seq::empty();
    while i < n
        invariant
            n == s.len(),
            s == input@,
            start <= i <= n,
            root == (if s.len() > 0 && s[0] == '/' {
                seq!['/']
            } else {
                Seq::<char>::empty()
            }),
            split_slash(s.take(i as int)).last() == s.subrange(start as int, i as int),
            (start == 0) == (split_slash(s.take(i as int)).len() == 1),
            comps == components_of(split_slash(s.take(i as int)).drop_last()),
            count == comps.len(),
            count <= i,
            "/"@ == seq!['/'],
            out@ == root + join_slash(comps),
        decreases n - i,
    {
        let ghost pieces = split_slash(s.take(i as int));
        proof {
            lemma_split_slash_nonempty(s.take(i as int));
            assert(s.take(i + 1).drop_last() =~= s.take(i as int));
            assert(s.take(i + 1).last() == s[i as int]);
        }
        if input.get_char(i) == '/' {
            let ghost piece = s.subrange(start as int, i as int);
            let ghost done = pieces.drop_last();
            assert(pieces =~= done.push(piece));
            let is_dot = is_dot_piece(input, start, i);
            if (is_dot && start == 0) || (i > start && !is_dot) {
                if count > 0 {
                    out.append("/");
                }
                out.append(input.substring_char(start, i));
                count = count + 1;
                proof {
                    lemma_join_push(comps, piece);
                }
            }
            proof {
                lemma_components_push(done, piece);
                comps = components_of(pieces);
                assert(split_slash(s.take(i + 1)) == pieces.push(Seq::<char>::empty()));
                assert(split_slash(s.take(i + 1)).drop_last() =~= pieces);
                assert(s.subrange(i + 1, i + 1) =~= Seq::<char>::empty());
            }
            start = i + 1;
        } else {
            proof {
                assert(s.subrange(start as int, i + 1) =~= s.subrange(start as int, i as int).push(
                    s[i as int],
                ));
                assert(split_slash(s.take(i + 1)).drop_last() =~= pieces.drop_last());
            }
        }
        i = i + 1;
    }
    // the last piece
    let ghost pieces = split_slash(s.take(i as int));
    proof {
        lemma_split_slash_nonempty(s.take(i as int));
        assert(s.take(i as int) =~= s);
    }
    let ghost piece = s.subrange(start as int, i as int);
    let ghost done = pieces.drop_last();
    assert(pieces =~= done.push(piece));
    let is_dot = is_dot_piece(input, start, i);
    if (is_dot && start == 0) || (i > start && !is_dot) {
        if count > 0 {
            out.append("/");
        }
        out.append(input.substring_char(start, i));
        proof {
            lemma_join_push(comps, piece);
        }
    }
    proof {
        lemma_components_push(done, piece);
    }
    out
}

/// A piece without a separator.
pub open spec fn has_no_slash(p: Seq<char>) -> bool {
    has_no(p, '/')
}

/// No piece of a split path holds a separator.
proof fn lemma_split_pieces_have_no_slash(s: Seq<char>)
    ensures
        forall|i: int| 0 <= i < split_slash(s).len() ==> has_no_slash(#[trigger] split_slash(s)[i]),
    decreases s.len(),
{
    lemma_split_slash_nonempty(s);
    if s.len() > 0 {
        let p = split_slash(s.drop_last());
        lemma_split_pieces_have_no_slash(s.drop_last());
        lemma_split_slash_nonempty(s.drop_last());
        if s.last() != '/' {
            let l = p.last();
            assert(has_no_slash(p[p.len() - 1]));
            assert forall|i: int| 0 <= i < split_slash(s).len() implies has_no_slash(
                #[trigger] split_slash(s)[i],
            ) by {
                if i == p.len() - 1 {
                    let q = l.push(s.last());
                    assert(split_slash(s)[i] == q);
                    assert forall|j: int| 0 <= j < q.len() implies #[trigger] q[j] != '/' by {
                        if j < l.len() {
                            assert(q[j] == l[j]);
                        }
                    }
                } else {
                    assert(split_slash(s)[i] == p[i]);
                }
            }
        } else {
            assert forall|i: int| 0 <= i < split_slash(s).len() implies has_no_slash(
                #[trigger] split_slash(s)[i],
            ) by {
                if i < p.len() {
                    assert(split_slash(s)[i] == p[i]);
                } else {
                    assert(split_slash(s)[i] =~= Seq::<char>::empty());
                }
            }
        }
    }
}

/// Characters without a separator extend the last piece.
proof fn lemma_split_append_piece(x: Seq<char>, p: Seq<char>)
    requires
        has_no_slash(p),
    ensures
        split_slash(x + p) == split_slash(x).update(
            split_slash(x).len() - 1,
            split_slash(x).last() + p,
        ),
{
    text::lemma_split_on_append_piece(x, p, '/');
}

/// Joined parts without separators split back into the same parts.
proof fn lemma_split_join(parts: Seq<Seq<char>>)
    requires
        parts.len() >= 1,
        forall|i: int| 0 <= i < parts.len() ==> has_no_slash(#[trigger] parts[i]),
    ensures
        split_slash(join_slash(parts)) == parts,
    decreases parts.len(),
{
    if parts.len() == 1 {
        lemma_split_append_piece(Seq::empty(), parts[0]);
        assert(Seq::<char>::empty() + parts[0] =~= parts[0]);
        assert(Seq::<char>::empty() + parts[0] =~= parts[0]);
        assert(split_slash(Seq::<char>::empty()).update(0, Seq::<char>::empty() + parts[0])
            =~= parts);
    } else {
        let init = parts.drop_last();
        assert forall|i: int| 0 <= i < init.len() implies has_no_slash(#[trigger] init[i]) by {
            assert(init[i] == parts[i]);
        }
        lemma_split_join(init);
        let x = join_slash(init) + seq!['/'];
        assert(x.drop_last() =~= join_slash(init));
        assert(split_slash(x) == init.push(Seq::empty()));
        assert(has_no_slash(parts.last()));
        lemma_split_append_piece(x, parts.last());
        assert(Seq::<char>::empty() + parts.last() =~= parts.last());
        assert(init.push(Seq::empty()).update(init.len() as int, parts.last()) =~= parts);
    }
}

/// A leading separator adds an empty first piece.
proof fn lemma_split_root(x: Seq<char>)
    ensures
        split_slash(seq!['/'] + x) == seq![Seq::<char>::empty()] + split_slash(x),
    decreases x.len(),
{
    lemma_split_slash_nonempty(x);
    if x.len() == 0 {
        assert(seq!['/'] + x =~= seq!['/']);
        assert(seq!['/'].drop_last() =~= Seq::<char>::empty());
        assert(seq!['/'].last() == '/');
        assert(split_slash(Seq::<char>::empty()) =~= seq![Seq::<char>::empty()]);
        assert(split_slash(seq!['/']) == split_slash(Seq::<char>::empty()).push(Seq::<char>::empty()));
        assert(split_slash(seq!['/']) =~= seq![Seq::<char>::empty(), Seq::<char>::empty()]);
        assert(seq![Seq::<char>::empty()] + split_slash(x) =~= seq![
            Seq::<char>::empty(),
            Seq::<char>::empty(),
        ]);
    } else {
        lemma_split_root(x.drop_last());
        lemma_split_slash_nonempty(x.drop_last());
        assert((seq!['/'] + x).drop_last() =~= seq!['/'] + x.drop_last());
        assert((seq!['/'] + x).last() == x.last());
        let p = split_slash(x.drop_last());
        let q = seq![Seq::<char>::empty()] + p;
        if x.last() == '/' {
            assert(q.push(Seq::empty()) =~= seq![Seq::<char>::empty()] + p.push(Seq::empty()));
        } else {
            assert(q.last() == p.last());
            assert(q.update(q.len() - 1, q.last().push(x.last())) =~= seq![Seq::<char>::empty()]
                + p.update(p.len() - 1, p.last().push(x.last())));
        }
    }
}

/// The joined parts begin with the first part.
proof fn lemma_join_starts_with_first(parts: Seq<Seq<char>>, i: int)
    requires
        parts.len() >= 1,
        0 <= i < parts[0].len(),
    ensures
        i < join_slash(parts).len(),
        join_slash(parts)[i] == parts[0][i],
    decreases parts.len(),
{
    if parts.len() > 1 {
        lemma_join_starts_with_first(parts.drop_last(), i);
    }
}

/// The components of a rebuilt path hold no separator and are not empty;
/// none is `.` except perhaps the first one of a path without a root, and
/// a path with a root has no `.` component at all.
pub proof fn lemma_components_shape(s: Seq<char>)
    ensures
        forall|i: int|
            0 <= i < components_of(split_slash(s)).len() ==> {
                let c = #[trigger] components_of(split_slash(s))[i];
                &&& has_no_slash(c)
                &&& c.len() > 0
                &&& (i > 0 ==> is_named_piece(c))
            },
        s.len() > 0 && s[0] == '/' ==> forall|i: int|
            0 <= i < components_of(split_slash(s)).len() ==> is_named_piece(
                #[trigger] components_of(split_slash(s))[i],
            ),
{
    let pieces = split_slash(s);
    let named = |p: Seq<char>| is_named_piece(p);
    let filtered = pieces.filter(named);
    let c = components_of(pieces);
    lemma_split_pieces_have_no_slash(s);
    lemma_split_slash_nonempty(s);
    assert forall|j: int| 0 <= j < filtered.len() implies is_named_piece(#[trigger] filtered[j])
        && has_no_slash(filtered[j]) by {
        pieces.lemma_filter_pred(named, j);
        assert(filtered.contains(filtered[j]));
        seqs::lemma_filter_contains_iff(pieces, named, filtered[j]);
        let k = choose|k: int| 0 <= k < pieces.len() && pieces[k] == filtered[j];
        assert(has_no_slash(pieces[k]));
    }
    if pieces[0] == seq!['.'] {
        assert(c =~= seq![seq!['.']] + filtered);
        assert forall|i: int| 0 <= i < c.len() implies ({
            let x = #[trigger] c[i];
            &&& has_no_slash(x)
            &&& x.len() > 0
            &&& (i > 0 ==> is_named_piece(x))
        }) by {
            if i > 0 {
                assert(c[i] == filtered[i - 1]);
            } else {
                assert(c[0] == seq!['.']);
            }
        }
    } else {
        assert(c =~= filtered);
    }
    if s.len() > 0 && s[0] == '/' {
        assert(s =~= seq!['/'] + s.drop_first());
        lemma_split_root(s.drop_first());
        assert(pieces[0] =~= Seq::<char>::empty());
    }
}

/// Rebuilding a rebuilt path changes nothing.
pub proof fn lemma_normalized_path_idempotent(s: Seq<char>)
    ensures
        normalized_path(normalized_path(s)) == normalized_path(s),
{
    let c = components_of(split_slash(s));
    let rooted = s.len() > 0 && s[0] == '/';
    let t = normalized_path(s);
    let named = |p: Seq<char>| is_named_piece(p);
    lemma_components_shape(s);
    assert forall|i: int| 0 <= i < c.len() implies has_no_slash(#[trigger] c[i]) by {}
    if rooted {
        assert(t == seq!['/'] + join_slash(c));
        assert(t[0] == '/');
        lemma_split_root(join_slash(c));
        if c.len() == 0 {
            assert(join_slash(c) =~= Seq::<char>::empty());
            let pieces = seq![Seq::<char>::empty(), Seq::<char>::empty()];
            assert(split_slash(t) =~= pieces);
            seqs::lemma_filter_none(pieces, named);
            assert(components_of(pieces) =~= c);
        } else {
            lemma_split_join(c);
            let pieces = seq![Seq::<char>::empty()] + c;
            assert(split_slash(t) =~= pieces);
            c.lemma_filter_prepend(Seq::<char>::empty(), named);
            seqs::lemma_filter_all(c, named);
            assert(components_of(pieces) =~= c);
        }
    } else {
        assert(t =~= join_slash(c));
        if c.len() == 0 {
            assert(t =~= Seq::<char>::empty());
            assert(split_slash(t) =~= seq![Seq::<char>::empty()]);
            seqs::lemma_filter_none(seq![Seq::<char>::empty()], named);
            assert(components_of(split_slash(t)) =~= c);
        } else {
            lemma_split_join(c);
            lemma_join_starts_with_first(c, 0);
            assert(c[0][0] != '/');
            assert(t[0] != '/');
            if c[0] == seq!['.'] {
                let rest = c.drop_first();
                assert(c =~= seq![c[0]] + rest);
                rest.lemma_filter_prepend(c[0], named);
                assert forall|i: int| 0 <= i < rest.len() implies named(#[trigger] rest[i]) by {
                    assert(rest[i] == c[i + 1]);
                }
                seqs::lemma_filter_all(rest, named);
                assert(components_of(c) =~= c);
            } else {
                assert forall|i: int| 0 <= i < c.len() implies named(#[trigger] c[i]) by {}
                seqs::lemma_filter_all(c, named);
                assert(components_of(c) =~= c);
            }
        }
    }
}

/// Validates the directory argument: the path rebuilt from its components when
/// it names a directory, an error naming the argument otherwise. Whether the
/// rebuilt path is a directory is asked of the file system by the caller.
pub fn parse_path(input: &str, is_directory: bool) -> (r: Result<String, String>)
    ensures
        match r {
            Ok(path) => is_directory && path@ == normalized_path(input@),
            Err(message) => !is_directory && message@ == invalid_directory_message(input@),
        },
{
    if is_directory {
        Ok(normalize_path(input))
    } else {
        let mut message = String::new();
        message.append("'");
        message.append(input);
        message.append("' was not a valid directory path.");
        Err(message)
    }
}

} // verus!
