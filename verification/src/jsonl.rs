//! Logs of one record per line.

use vstd::prelude::*;

use crate::text::views;

verus! {

/// Whether a line holds no line break.
pub open spec fn is_line(s: Seq<u8>) -> bool {
    forall|i: int| 0 <= i < s.len() ==> #[trigger] s[i] != 10
}

/// The lines of a log before its last line break, followed by what comes after it, the empty
/// ones left out.
pub open spec fn lines_of(s: Seq<u8>) -> Seq<Seq<u8>>
    decreases s.len(),
{
    let tail = last_line(s);
    let before = if tail.len() >= s.len() {
        Seq::empty()
    } else {
        lines_of(s.take(s.len() - tail.len() - 1))
    };
    if tail.len() == 0 {
        before
    } else {
        before.push(tail)
    }
}

/// What follows the last line break.
pub open spec fn last_line(s: Seq<u8>) -> Seq<u8>
    decreases s.len(),
{
    if s.len() == 0 || s.last() == 10 {
        Seq::empty()
    } else {
        last_line(s.drop_last()).push(s.last())
    }
}

proof fn lemma_last_line(s: Seq<u8>, from: int)
    requires
        0 <= from <= s.len(),
        from > 0 ==> s[from - 1] == 10,
        forall|i: int| from <= i < s.len() ==> #[trigger] s[i] != 10,
    ensures
        last_line(s) == s.skip(from),
    decreases s.len() - from,
{
    if from < s.len() {
        assert(s[s.len() - 1] != 10);
        lemma_last_line(s.drop_last(), from);
        assert(s.drop_last().skip(from).push(s.last()) =~= s.skip(from));
    } else {
        if s.len() > 0 {
            assert(s.last() == s[from - 1]);
        }
        assert(s.skip(from) =~= Seq::<u8>::empty());
    }
}

/// The lines of a log, the empty ones left out.
pub fn read_lines(bytes: &Vec<u8>) -> (r: Vec<Vec<u8>>)
    ensures
        views(r@) == lines_of(bytes@),
{
    let mut r: Vec<Vec<u8>> = Vec::new();
    let mut line: Vec<u8> = Vec::new();
    let mut i: usize = 0;
    let ghost mut from: int = 0;
    let ghost none = Seq::<Seq<u8>>::empty();
    assert(views(r@) =~= none);
    while i < bytes.len()
        invariant
            0 <= from <= i <= bytes@.len(),
            from > 0 ==> bytes@[from - 1] == 10,
            line@ =~= bytes@.subrange(from, i as int),
            forall|k: int| from <= k < i ==> #[trigger] bytes@[k] != 10,
            views(r@) == (if from == 0 {
                Seq::empty()
            } else {
                lines_of(bytes@.take(from - 1))
            }),
        decreases bytes@.len() - i,
    {
        let b: u8 = bytes[i];
        if b == 10 {
            let ghost done = r@;
            proof {
                let upto = bytes@.take(i as int);
                lemma_last_line(upto, from);
                assert(last_line(upto) =~= bytes@.subrange(from, i as int));
                if from > 0 {
                    assert(upto.take(from - 1) =~= bytes@.take(from - 1));
                }
            }
            if line.len() > 0 {
                r.push(line);
                assert(views(r@) =~= views(done).push(line@));
            }
            line = Vec::new();
            proof {
                from = i + 1;
                assert(bytes@.take(from - 1) =~= bytes@.take(i as int));
            }
        } else {
            line.push(b);
        }
        i = i + 1;
    }
    proof {
        lemma_last_line(bytes@, from);
        assert(last_line(bytes@) =~= line@);
    }
    if line.len() > 0 {
        let ghost done = r@;
        r.push(line);
        assert(views(r@) =~= views(done).push(line@));
    }
    r
}

/// Some lines as they stand in a log: a line break behind each.
pub open spec fn framed(lines: Seq<Seq<u8>>) -> Seq<u8>
    decreases lines.len(),
{
    if lines.len() == 0 {
        Seq::empty()
    } else {
        framed(lines.drop_last()) + lines.last().push(10)
    }
}

/// Puts one more line behind a log.
pub fn append_line(log: &mut Vec<u8>, line: &Vec<u8>)
    ensures
        final(log)@ == old(log)@ + line@.push(10),
{
    let mut i: usize = 0;
    let ghost start = log@;
    while i < line.len()
        invariant
            i <= line@.len(),
            log@ =~= start + line@.take(i as int),
        decreases line@.len() - i,
    {
        log.push(line[i]);
        i = i + 1;
    }
    log.push(10);
    assert(log@ =~= start + line@.push(10));
}

/// Reading a log gives back the records that were written to it, one by one and in order, as long
/// as no record is empty or holds a line break.
pub proof fn lemma_log_reads_back(lines: Seq<Seq<u8>>)
    requires
        forall|i: int|
            0 <= i < lines.len() ==> is_line(#[trigger] lines[i]) && lines[i].len() > 0,
    ensures
        lines_of(framed(lines)) == lines,
    decreases lines.len(),
{
    let s = framed(lines);
    if lines.len() == 0 {
        assert(lines_of(s) =~= lines);
    } else {
        let rest = lines.drop_last();
        assert forall|i: int| 0 <= i < rest.len() implies is_line(#[trigger] rest[i])
            && rest[i].len() > 0 by {
            assert(rest[i] == lines[i]);
        }
        lemma_log_reads_back(rest);
        let head = framed(rest);
        let line = lines.last();
        assert(lines[lines.len() - 1] == line);
        assert(s.last() == 10);
        assert(last_line(s) =~= Seq::<u8>::empty());
        let t = s.take(s.len() - 1);
        assert(t =~= head + line);
        assert forall|i: int| head.len() <= i < t.len() implies #[trigger] t[i] != 10 by {
            assert(t[i] == line[i - head.len()]);
        }
        if rest.len() > 0 {
            assert(head.last() == 10);
            assert(t[head.len() - 1] == 10);
        }
        lemma_last_line(t, head.len() as int);
        assert(t.skip(head.len() as int) =~= line);
        if head.len() > 0 {
            assert(t.take(t.len() - line.len() - 1) =~= head.take(head.len() - 1));
            lemma_break_closes(head);
        } else {
            assert(rest.len() == 0);
        }
        assert(rest.push(line) =~= lines);
        assert(lines_of(t) == rest.push(line));
    }
}

/// A line break at the end of a log adds no line.
proof fn lemma_break_closes(s: Seq<u8>)
    requires
        s.len() > 0,
        s.last() == 10,
    ensures
        lines_of(s) == lines_of(s.take(s.len() - 1)),
{
    assert(last_line(s) == Seq::<u8>::empty());
}

/// A record that is appended later is read behind the ones before it.
pub proof fn lemma_append_reads_behind(lines: Seq<Seq<u8>>, line: Seq<u8>)
    requires
        forall|i: int|
            0 <= i < lines.len() ==> is_line(#[trigger] lines[i]) && lines[i].len() > 0,
        is_line(line),
        line.len() > 0,
    ensures
        lines_of(framed(lines) + line.push(10)) == lines.push(line),
{
    let all = lines.push(line);
    assert(all.drop_last() =~= lines);
    assert(framed(all) == framed(lines) + line.push(10));
    assert forall|i: int| 0 <= i < all.len() implies is_line(#[trigger] all[i]) && all[i].len() > 0 by {
        if i < lines.len() {
            assert(all[i] == lines[i]);
        }
    }
    lemma_log_reads_back(all);
}

} // verus!
