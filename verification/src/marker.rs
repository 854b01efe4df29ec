//! The marker file: a newline-delimited list of the subfolder names that have
//! already been fully copied. Reading splits the text into lines (a trailing
//! carriage return before a newline is dropped, a final fragment without a
//! newline counts as a line) and keeps the first occurrence of each name;
//! writing renders one name per line, each followed by a newline.

use vstd::prelude::*;
use vstd::string::StrSliceExecFns;
use vstd::string::StringExecFns;

verus! {

/// The views of a sequence of strings.
pub open spec fn str_views(v: Seq<String>) -> Seq<Seq<char>> {
    v.map_values(|s: String| s@)
}

/// No two elements are equal.
pub open spec fn distinct_lines(s: Seq<Seq<char>>) -> bool {
    forall|i: int, j: int| 0 <= i < j < s.len() ==> s[i] != s[j]
}

/// The index of the first newline in `s`, or `s.len()` if there is none.
pub open spec fn first_newline(s: Seq<char>) -> int
    decreases s.len(),
{
    if s.len() == 0 {
        0
    } else if s[0] == '\n' {
        0
    } else {
        1 + first_newline(s.drop_first())
    }
}

/// `first_newline` points at the first newline: it is in bounds, the
/// character there (if any) is a newline, and nothing before it is one.
pub proof fn lemma_first_newline(s: Seq<char>)
    ensures
        0 <= first_newline(s) <= s.len(),
        first_newline(s) < s.len() ==> s[first_newline(s)] == '\n',
        forall|j: int| 0 <= j < first_newline(s) ==> s[j] != '\n',
    decreases s.len(),
{
    if s.len() == 0 || s[0] == '\n' {
    } else {
        lemma_first_newline(s.drop_first());
        assert forall|j: int| 0 <= j < first_newline(s) implies s[j] != '\n' by {
            if j > 0 {
                assert(s.drop_first()[j - 1] == s[j]);
            }
        }
    }
}

/// A line with its trailing carriage return removed, if it has one.
pub open spec fn strip_cr(s: Seq<char>) -> Seq<char> {
    if s.len() > 0 && s[s.len() - 1] == '\r' {
        s.drop_last()
    } else {
        s
    }
}

/// The lines of `s`: pieces between newlines, each with a trailing carriage
/// return dropped; a final nonempty fragment without a newline is a line of
/// its own (it keeps a trailing carriage return).
pub open spec fn split_lines(s: Seq<char>) -> Seq<Seq<char>>
    decreases s.len(),
    via split_lines_dec
{
    if s.len() == 0 {
        Seq::empty()
    } else {
        let i = first_newline(s);
        if i == s.len() {
            seq![s]
        } else {
            seq![strip_cr(s.subrange(0, i))] + split_lines(s.subrange(i + 1, s.len() as int))
        }
    }
}

#[via_fn]
proof fn split_lines_dec(s: Seq<char>) {
    if s.len() != 0 {
        lemma_first_newline(s);
    }
}

/// `x` appended to `acc` unless already present.
pub open spec fn dedup_push(acc: Seq<Seq<char>>, x: Seq<char>) -> Seq<Seq<char>> {
    if acc.contains(x) {
        acc
    } else {
        acc.push(x)
    }
}

/// All of `lines` pushed onto `acc` in order, first occurrences only.
pub open spec fn dedup_from(acc: Seq<Seq<char>>, lines: Seq<Seq<char>>) -> Seq<Seq<char>>
    decreases lines.len(),
{
    if lines.len() == 0 {
        acc
    } else {
        dedup_from(dedup_push(acc, lines[0]), lines.drop_first())
    }
}

/// The distinct lines, in order of first occurrence.
pub open spec fn dedup_all(lines: Seq<Seq<char>>) -> Seq<Seq<char>> {
    dedup_from(Seq::empty(), lines)
}

/// Each name followed by one newline.
pub open spec fn join_lines(names: Seq<Seq<char>>) -> Seq<char>
    decreases names.len(),
{
    if names.len() == 0 {
        Seq::empty()
    } else {
        names[0] + seq!['\n'] + join_lines(names.drop_first())
    }
}

/// Appends `x` to `v` unless an equal string is already there.
pub fn insert_unique(v: &mut Vec<String>, x: String)
    ensures
        str_views(final(v)@) == dedup_push(str_views(old(v)@), x@),
        distinct_lines(str_views(old(v)@)) ==> distinct_lines(str_views(final(v)@)),
{
    let mut i: usize = 0;
    while i < v.len()
        invariant
            i <= v@.len(),
            forall|k: int| 0 <= k < i ==> v@[k]@ != x@,
        decreases v@.len() - i,
    {
        if v[i] == x {
            proof {
                assert(str_views(v@)[i as int] == x@);
                assert(str_views(v@).contains(x@));
            }
            return ;
        }
        i = i + 1;
    }
    proof {
        assert forall|k: int| 0 <= k < str_views(v@).len() implies str_views(v@)[k] != x@ by {
            assert(str_views(v@)[k] == v@[k]@);
        }
        assert(!str_views(v@).contains(x@));
    }
    let ghost prior = v@;
    v.push(x);
    proof {
        assert(str_views(v@) =~= str_views(prior).push(x@));
    }
}

/// Parses the marker file's text into the recorded subfolder names, keeping
/// the first occurrence of each.
pub fn parse_marker(content: &str) -> (r: Vec<String>)
    ensures
        str_views(r@) == dedup_all(split_lines(content@)),
        distinct_lines(str_views(r@)),
{
    let len: usize = content.unicode_len();
    let mut seen: Vec<String> = Vec::new();
    let mut pos: usize = 0;
    proof {
        assert(content@.skip(0) =~= content@);
        assert(str_views(seen@) =~= Seq::<Seq<char>>::empty());
    }
    while pos < len
        invariant
            len == content@.len(),
            pos <= len,
            distinct_lines(str_views(seen@)),
            dedup_from(str_views(seen@), split_lines(content@.skip(pos as int))) == dedup_all(
                split_lines(content@),
            ),
        decreases len - pos,
    {
        let ghost rest = content@.skip(pos as int);
        let mut j: usize = pos;
        while j < len && content.get_char(j) != '\n'
            invariant
                len == content@.len(),
                pos <= j <= len,
                forall|k: int| pos <= k < j ==> content@[k] != '\n',
            decreases len - j,
        {
            j = j + 1;
        }
        proof {
            assert forall|k: int| 0 <= k < j - pos implies rest[k] != '\n' by {
                assert(rest[k] == content@[pos + k]);
            }
            if j < len {
                assert(rest[j - pos] == content@[j as int]);
            }
            lemma_first_newline(rest);
            assert(first_newline(rest) == j - pos);
        }
        if j < len {
            let line_end: usize = if j > pos && content.get_char(j - 1) == '\r' {
                j - 1
            } else {
                j
            };
            let line = content.substring_char(pos, line_end);
            proof {
                assert(rest.subrange(0, (j - pos) as int) =~= content@.subrange(
                    pos as int,
                    j as int,
                ));
                assert(line@ =~= strip_cr(rest.subrange(0, (j - pos) as int)));
                assert(split_lines(rest) == seq![line@] + split_lines(
                    rest.subrange((j - pos + 1) as int, rest.len() as int),
                ));
                assert(rest.subrange((j - pos + 1) as int, rest.len() as int) =~= content@.skip(
                    (j + 1) as int,
                ));
                assert((seq![line@] + split_lines(content@.skip((j + 1) as int))).drop_first()
                    =~= split_lines(content@.skip((j + 1) as int)));
                assert((seq![line@] + split_lines(content@.skip((j + 1) as int)))[0] == line@);
            }
            insert_unique(&mut seen, String::from_str(line));
            pos = j + 1;
        } else {
            let line = content.substring_char(pos, len);
            proof {
                assert(line@ =~= rest);
                assert(split_lines(rest) == seq![rest]);
                assert((seq![rest]).drop_first() =~= Seq::<Seq<char>>::empty());
                assert((seq![rest])[0] == rest);
            }
            insert_unique(&mut seen, String::from_str(line));
            pos = len;
            proof {
                assert(content@.skip(pos as int) =~= Seq::<char>::empty());
            }
        }
    }
    proof {
        assert(content@.skip(pos as int) =~= Seq::<char>::empty());
    }
    seen
}

/// Renders the names back into the marker file's text, one name per line.
pub fn render_marker(names: &Vec<String>) -> (r: String)
    ensures
        r@ == join_lines(str_views(names@)),
{
    let mut out = String::new();
    let mut i: usize = 0;
    proof {
        assert(str_views(names@).subrange(0, 0) =~= Seq::<Seq<char>>::empty());
        assert(out@ =~= join_lines(str_views(names@).subrange(0, 0)));
    }
    while i < names.len()
        invariant
            i <= names@.len(),
            out@ == join_lines(str_views(names@).subrange(0, i as int)),
        decreases names@.len() - i,
    {
        let ghost done = str_views(names@).subrange(0, i as int);
        out.append(names[i].as_str());
        out.append("\n");
        proof {
            reveal_strlit("\n");
            assert("\n"@ =~= seq!['\n']);
            lemma_join_push(done, names@[i as int]@);
            assert(done.push(names@[i as int]@) =~= str_views(names@).subrange(0, i + 1));
            assert(out@ =~= join_lines(str_views(names@).subrange(0, i + 1)));
        }
        i = i + 1;
    }
    proof {
        assert(str_views(names@).subrange(0, names@.len() as int) =~= str_views(names@));
    }
    out
}

/// Joining one more name appends it and a newline.
proof fn lemma_join_push(names: Seq<Seq<char>>, x: Seq<char>)
    ensures
        join_lines(names.push(x)) == join_lines(names) + x + seq!['\n'],
    decreases names.len(),
{
    assert(join_lines(Seq::<Seq<char>>::empty()) == Seq::<char>::empty());
    if names.len() == 0 {
        assert(names.push(x)[0] == x);
        assert(names.push(x).drop_first() =~= Seq::<Seq<char>>::empty());
        assert(join_lines(names.push(x)) == names.push(x)[0] + seq!['\n'] + join_lines(
            names.push(x).drop_first(),
        ));
        assert(join_lines(names.push(x)) =~= join_lines(names) + x + seq!['\n']);
    } else {
        lemma_join_push(names.drop_first(), x);
        assert(names.push(x).drop_first() =~= names.drop_first().push(x));
        assert(names.push(x)[0] == names[0]);
        assert(join_lines(names.push(x)) == names.push(x)[0] + seq!['\n'] + join_lines(
            names.push(x).drop_first(),
        ));
        assert(join_lines(names.push(x)) =~= join_lines(names) + x + seq!['\n']);
    }
}

/// Parsing the rendered marker text gives back exactly the names, provided no
/// name contains a newline, no name ends in a carriage return, and the names
/// are distinct.
pub proof fn lemma_marker_round_trip(names: Seq<Seq<char>>)
    requires
        forall|i: int| 0 <= i < names.len() ==> !names[i].contains('\n'),
        forall|i: int|
            0 <= i < names.len() ==> !(names[i].len() > 0 && names[i][names[i].len() - 1] == '\r'),
        distinct_lines(names),
    ensures
        dedup_all(split_lines(join_lines(names))) == names,
{
    lemma_split_join(names);
    lemma_dedup_distinct(Seq::empty(), names);
    assert(Seq::<Seq<char>>::empty() + names =~= names);
}

/// Splitting a joined list of newline-free, carriage-return-free names gives
/// the names back.
proof fn lemma_split_join(names: Seq<Seq<char>>)
    requires
        forall|i: int| 0 <= i < names.len() ==> !names[i].contains('\n'),
        forall|i: int|
            0 <= i < names.len() ==> !(names[i].len() > 0 && names[i][names[i].len() - 1] == '\r'),
    ensures
        split_lines(join_lines(names)) == names,
    decreases names.len(),
{
    if names.len() == 0 {
        assert(split_lines(join_lines(names)) =~= names);
    } else {
        let n0 = names[0];
        let s = join_lines(names);
        let tail = join_lines(names.drop_first());
        assert(s == n0 + seq!['\n'] + tail);
        assert(s.len() > 0);
        lemma_first_newline(s);
        assert(s[n0.len() as int] == '\n');
        assert forall|k: int| 0 <= k < n0.len() implies s[k] != '\n' by {
            assert(s[k] == n0[k]);
            assert(!n0.contains('\n'));
            if n0[k] == '\n' {
                assert(n0.contains('\n'));
            }
        }
        assert(first_newline(s) == n0.len()) by {
            let f = first_newline(s);
            if f < n0.len() {
                assert(s[f] != '\n');
            }
            if f > n0.len() {
                assert(s[n0.len() as int] != '\n');
            }
        }
        assert(s.subrange(0, n0.len() as int) =~= n0);
        assert(strip_cr(n0) == n0);
        assert(s.subrange(n0.len() as int + 1, s.len() as int) =~= tail);
        assert forall|i: int| 0 <= i < names.drop_first().len() implies !names.drop_first()[
            i
        ].contains('\n') && !(names.drop_first()[i].len() > 0 && names.drop_first()[i][
            names.drop_first()[i].len() - 1
        ] == '\r') by {
            assert(names.drop_first()[i] == names[i + 1]);
        }
        lemma_split_join(names.drop_first());
        assert(split_lines(s) =~= seq![n0] + names.drop_first());
        assert(seq![n0] + names.drop_first() =~= names);
    }
}

/// Pushing already-distinct lines onto a disjoint accumulator appends them.
proof fn lemma_dedup_distinct(acc: Seq<Seq<char>>, lines: Seq<Seq<char>>)
    requires
        distinct_lines(acc + lines),
    ensures
        dedup_from(acc, lines) == acc + lines,
    decreases lines.len(),
{
    if lines.len() == 0 {
        assert(dedup_from(acc, lines) =~= acc + lines);
    } else {
        let x = lines[0];
        assert(!acc.contains(x)) by {
            if acc.contains(x) {
                let i = choose|i: int| 0 <= i < acc.len() && acc[i] == x;
                assert((acc + lines)[i] == x);
                assert((acc + lines)[acc.len() as int] == x);
            }
        }
        assert(dedup_push(acc, x) == acc.push(x));
        assert(acc.push(x) + lines.drop_first() =~= acc + lines);
        lemma_dedup_distinct(acc.push(x), lines.drop_first());
        assert(dedup_from(acc, lines) == dedup_from(acc.push(x), lines.drop_first()));
    }
}

} // verus!
