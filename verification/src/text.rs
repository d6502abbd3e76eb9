//! Splitting and joining of character sequences.

use vstd::prelude::*;
use vstd::string::StringSliceAdditionalSpecFns;
use vstd::utf8::encode_utf8_decode_utf8;

verus! {

/// The least index at which `x` occurs in `s`, or `s.len()` where it does not occur.
pub open spec fn first_index<T>(s: Seq<T>, x: T) -> nat
    decreases s.len(),
{
    if s.len() == 0 {
        0
    } else if s[0] == x {
        0
    } else {
        1 + first_index(s.drop_first(), x)
    }
}

/// `first_index` is the position of the first occurrence and nothing else.
pub proof fn lemma_first_index<T>(s: Seq<T>, x: T)
    ensures
        first_index(s, x) <= s.len(),
        first_index(s, x) < s.len() ==> s[first_index(s, x) as int] == x,
        forall|j: int| 0 <= j < first_index(s, x) ==> s[j] != x,
    decreases s.len(),
{
    if s.len() != 0 && s[0] != x {
        lemma_first_index(s.drop_first(), x);
        assert forall|j: int| 0 <= j < first_index(s, x) implies s[j] != x by {
            if j > 0 {
                assert(s[j] == s.drop_first()[j - 1]);
            }
        }
    }
}

/// Any index that holds the first occurrence of `x` is `first_index`.
pub proof fn lemma_first_index_unique<T>(s: Seq<T>, x: T, i: int)
    requires
        0 <= i <= s.len(),
        i < s.len() ==> s[i] == x,
        forall|j: int| 0 <= j < i ==> s[j] != x,
    ensures
        first_index(s, x) == i,
{
    lemma_first_index(s, x);
}

/// No character of `s` is `c`.
pub open spec fn free_of(s: Seq<char>, c: char) -> bool {
    forall|i: int| 0 <= i < s.len() ==> s[i] != c
}

/// Text that can stand in a key path: it holds neither a NUL character nor a
/// newline.
pub open spec fn plain(s: Seq<char>) -> bool {
    free_of(s, '\0') && free_of(s, '\n')
}

/// The pieces of `s` between the occurrences of `sep`, in order. There is
/// always at least one piece, and a piece may be empty.
pub open spec fn split_on(s: Seq<char>, sep: char) -> Seq<Seq<char>>
    decreases s.len(),
{
    let i = first_index(s, sep) as int;
    if i >= s.len() {
        seq![s]
    } else {
        seq![s.subrange(0, i)] + split_on(s.subrange(i + 1, s.len() as int), sep)
    }
}

/// The pieces put back together with one `sep` between neighbours.
pub open spec fn join_with(parts: Seq<Seq<char>>, sep: char) -> Seq<char>
    decreases parts.len(),
{
    if parts.len() == 0 {
        Seq::empty()
    } else if parts.len() == 1 {
        parts[0]
    } else {
        join_with(parts.drop_last(), sep) + seq![sep] + parts.last()
    }
}

/// The character sequences that a sequence of strings stands for.
pub open spec fn views(parts: Seq<String>) -> Seq<Seq<char>> {
    parts.map_values(|p: String| p@)
}

/// Splitting always yields a piece.
pub proof fn lemma_split_nonempty(s: Seq<char>, sep: char)
    ensures
        split_on(s, sep).len() >= 1,
    decreases s.len(),
{
    lemma_first_index(s, sep);
    let i = first_index(s, sep) as int;
    if i < s.len() {
        lemma_split_nonempty(s.subrange(i + 1, s.len() as int), sep);
    }
}

/// What one more character at the end does to the pieces: a separator opens a
/// new empty piece, any other character extends the last piece.
pub proof fn lemma_split_push(s: Seq<char>, c: char, sep: char)
    ensures
        split_on(s, sep).len() >= 1,
        c == sep ==> split_on(s.push(c), sep) == split_on(s, sep).push(Seq::empty()),
        c != sep ==> split_on(s.push(c), sep) == split_on(s, sep).drop_last().push(
            split_on(s, sep).last().push(c),
        ),
    decreases s.len(),
{
    lemma_first_index(s, sep);
    lemma_split_nonempty(s, sep);
    let i = first_index(s, sep) as int;
    let t = s.push(c);
    if i >= s.len() {
        if c == sep {
            lemma_first_index_unique(t, sep, s.len() as int);
            assert(t.subrange(0, s.len() as int) =~= s);
            assert(t.subrange(s.len() as int + 1, t.len() as int) =~= Seq::<char>::empty());
            assert(first_index(Seq::<char>::empty(), sep) == 0);
            assert(split_on(Seq::<char>::empty(), sep) =~= seq![Seq::<char>::empty()]);
            assert(split_on(t, sep) =~= split_on(s, sep).push(Seq::empty()));
        } else {
            lemma_first_index_unique(t, sep, t.len() as int);
            assert(split_on(t, sep) =~= split_on(s, sep).drop_last().push(
                split_on(s, sep).last().push(c),
            ));
        }
    } else {
        let rest = s.subrange(i + 1, s.len() as int);
        lemma_first_index_unique(t, sep, i);
        assert(t.subrange(0, i) =~= s.subrange(0, i));
        assert(t.subrange(i + 1, t.len() as int) =~= rest.push(c));
        lemma_split_push(rest, c, sep);
                if c == sep {
            assert(split_on(t, sep) =~= split_on(s, sep).push(Seq::empty()));
        } else {
            assert(split_on(s, sep).last() == split_on(rest, sep).last());
            assert(split_on(t, sep) =~= split_on(s, sep).drop_last().push(
                split_on(s, sep).last().push(c),
            ));
        }
    }
}

/// No piece holds the separator, and every character of a piece is one of `s`.
pub proof fn lemma_split_pieces(s: Seq<char>, sep: char)
    ensures
        forall|i: int, j: int|
            0 <= i < split_on(s, sep).len() && 0 <= j < split_on(s, sep)[i].len() ==> {
                &&& (#[trigger] split_on(s, sep)[i][j]) != sep
                &&& s.contains(split_on(s, sep)[i][j])
            },
    decreases s.len(),
{
    lemma_first_index(s, sep);
    let at = first_index(s, sep) as int;
    let pieces = split_on(s, sep);
    if at < s.len() {
        let rest = s.subrange(at + 1, s.len() as int);
        lemma_split_pieces(rest, sep);
        assert forall|i: int, j: int| 0 <= i < pieces.len() && 0 <= j < pieces[i].len() implies {
            &&& (#[trigger] pieces[i][j]) != sep
            &&& s.contains(pieces[i][j])
        } by {
            if i == 0 {
                assert(pieces[0][j] == s[j]);
            } else {
                let c = split_on(rest, sep)[i - 1][j];
                assert(pieces[i] == split_on(rest, sep)[i - 1]);
                assert(rest.contains(c));
                let k = choose|k: int| 0 <= k < rest.len() && rest[k] == c;
                assert(s[at + 1 + k] == c);
            }
        }
    }
}

/// Joining the pieces with the separator gives the sequence back.
pub proof fn lemma_join_split(s: Seq<char>, sep: char)
    ensures
        join_with(split_on(s, sep), sep) == s,
    decreases s.len(),
{
    if s.len() == 0 {
        assert(first_index(s, sep) == 0);
    } else {
        let init = s.drop_last();
        let c = s.last();
        lemma_join_split(init, sep);
        lemma_split_push(init, c, sep);
        assert(init.push(c) =~= s);
        let pieces = split_on(init, sep);
        if c == sep {
            assert(split_on(s, sep).drop_last() =~= pieces);
            assert(join_with(split_on(s, sep), sep) =~= s);
        } else {
            let grown = pieces.drop_last().push(pieces.last().push(c));
            assert(grown.drop_last() =~= pieces.drop_last());
            if pieces.len() == 1 {
                assert(join_with(grown, sep) =~= s);
            } else {
                assert(join_with(grown, sep) =~= join_with(pieces, sep).push(c));
            }
        }
    }
}

/// Splitting two sequences with a separator between them gives the pieces of
/// the first followed by the pieces of the second.
pub proof fn lemma_split_concat(a: Seq<char>, b: Seq<char>, sep: char)
    ensures
        split_on(a + seq![sep] + b, sep) == split_on(a, sep) + split_on(b, sep),
    decreases a.len(),
{
    lemma_first_index(a, sep);
    let whole = a + seq![sep] + b;
    let at = first_index(a, sep) as int;
    if at >= a.len() {
        lemma_first_index_unique(whole, sep, a.len() as int);
        assert(whole.subrange(0, a.len() as int) =~= a);
        assert(whole.subrange(a.len() as int + 1, whole.len() as int) =~= b);
    } else {
        let rest = a.subrange(at + 1, a.len() as int);
        lemma_first_index_unique(whole, sep, at);
        assert(whole.subrange(0, at) =~= a.subrange(0, at));
        assert(whole.subrange(at + 1, whole.len() as int) =~= rest + seq![sep] + b);
        lemma_split_concat(rest, b, sep);
        assert(split_on(whole, sep) =~= split_on(a, sep) + split_on(b, sep));
    }
}

/// A sequence without the separator is its own single piece.
pub proof fn lemma_split_whole(s: Seq<char>, sep: char)
    requires
        free_of(s, sep),
    ensures
        split_on(s, sep) == seq![s],
{
    lemma_first_index_unique(s, sep, s.len() as int);
}

/// `String::push` of the standard library: the string grows by the one
/// character at its end, and nothing else changes.
#[verifier::external_body]
fn push_char(s: &mut String, c: char)
    ensures
        final(s)@ == old(s)@.push(c),
{
    s.push(c);
}

/// Whether two strings hold the same characters.
pub fn same_text(a: &str, b: &str) -> (r: bool)
    ensures
        r == (a@ == b@),
{
    let x = a.as_bytes();
    let y = b.as_bytes();
    proof {
        encode_utf8_decode_utf8(a@);
        encode_utf8_decode_utf8(b@);
    }
    let n = x.len();
    if n != y.len() {
        return false;
    }
    let mut i: usize = 0;
    while i < n
        invariant
            i <= n,
            n == x@.len(),
            n == y@.len(),
            x@ == a.spec_bytes(),
            y@ == b.spec_bytes(),
            forall|j: int| 0 <= j < i ==> x@[j] == y@[j],
        decreases n - i,
    {
        if x[i] != y[i] {
            proof {
                if a@ == b@ {
                    assert(x@[i as int] == y@[i as int]);
                }
            }
            return false;
        }
        i = i + 1;
    }
    proof {
        assert(x@ =~= y@);
    }
    true
}

/// Position of the first `c` in `s`, counted in characters.
pub fn find_char(s: &str, c: char) -> (r: Option<usize>)
    ensures
        match r {
            Some(i) => i < s@.len() && first_index(s@, c) == i,
            None => first_index(s@, c) == s@.len(),
        },
{
    let n = s.unicode_len();
    let mut i: usize = 0;
    for x in it: s.chars()
        invariant
            i == it.index(),
            it.seq() == s@,
            s@.len() == n,
            forall|j: int| 0 <= j < i ==> s@[j] != c,
    {
        if x == c {
            proof {
                lemma_first_index_unique(s@, c, i as int);
            }
            return Some(i);
        }
        i = i + 1;
    }
    proof {
        lemma_first_index_unique(s@, c, s@.len() as int);
    }
    None
}

/// Cuts `in_string` at its first newline: what stands before it and what
/// follows it, the newline itself left out. Further newlines stay in the
/// second part. Without a newline there is nothing to cut.
pub fn split_once(in_string: &str) -> (r: Option<(&str, &str)>)
    ensures
        match r {
            Some((first, second)) => {
                let i = first_index(in_string@, '\n') as int;
                &&& i < in_string@.len()
                &&& first@ == in_string@.subrange(0, i)
                &&& second@ == in_string@.subrange(i + 1, in_string@.len() as int)
            },
            None => first_index(in_string@, '\n') == in_string@.len(),
        },
{
    match find_char(in_string, '\n') {
        Some(i) => {
            let n = in_string.unicode_len();
            let first = in_string.substring_char(0, i);
            let second = in_string.substring_char(i + 1, n);
            Some((first, second))
        },
        None => None,
    }
}

/// The pieces of `s` between the occurrences of `sep`, as owned strings.
pub fn split(s: &str, sep: char) -> (parts: Vec<String>)
    ensures
        views(parts@) == split_on(s@, sep),
{
    let mut parts: Vec<String> = Vec::new();
    let mut piece = String::new();
    proof {
        assert(s@.subrange(0, 0) =~= Seq::<char>::empty());
        assert(first_index(Seq::<char>::empty(), sep) == 0);
        assert(views(parts@).push(piece@) =~= split_on(s@.subrange(0, 0), sep));
    }
    for c in it: s.chars()
        invariant
            it.seq() == s@,
            views(parts@).push(piece@) == split_on(s@.subrange(0, it.index() as int), sep),
    {
        proof {
            let k = it.index() as int;
            lemma_split_push(s@.subrange(0, k), c, sep);
            assert(s@.subrange(0, k).push(c) =~= s@.subrange(0, k + 1));
        }
        let ghost before = views(parts@);
        if c == sep {
            parts.push(piece);
            piece = String::new();
            proof {
                assert(views(parts@).push(piece@) =~= before.push(parts@.last()@).push(
                    Seq::empty(),
                ));
            }
        } else {
            let ghost last = piece@;
            push_char(&mut piece, c);
            proof {
                assert(before.push(last).drop_last() =~= before);
            }
        }
    }
    proof {
        assert(s@.subrange(0, s@.len() as int) =~= s@);
        assert(views(parts@.push(piece)) =~= views(parts@).push(piece@));
    }
    parts.push(piece);
    parts
}

/// The strings of `parts`, in order, with one `sep` between neighbours.
pub fn join(parts: &[String], sep: char) -> (r: String)
    ensures
        r@ == join_with(views(parts@), sep),
{
    let mut r = String::new();
    let n = parts.len();
    let mut i: usize = 0;
    while i < n
        invariant
            i <= n,
            n == parts@.len(),
            r@ == join_with(views(parts@).subrange(0, i as int), sep),
        decreases n - i,
    {
        if i > 0 {
            push_char(&mut r, sep);
        }
        r.append(parts[i].as_str());
        proof {
            let upto = views(parts@).subrange(0, i + 1);
            assert(upto.drop_last() =~= views(parts@).subrange(0, i as int));
            assert(upto.last() == parts@[i as int]@);
            if i == 0 {
                assert(r@ =~= upto[0]);
            }
        }
        i = i + 1;
    }
    proof {
        assert(views(parts@).subrange(0, n as int) =~= views(parts@));
    }
    r
}

} // verus!
