//! Reading a relocation trace: the grammar of its lines and the pass that
//! turns a whole trace into the store of eras.
use crate::era::{
    build_from, build_step, era_starts, era_views, lemma_eras_inverse, lemma_one_era_per_start,
    lemma_same_source_fails, replay, seal, EraBuilder, EraView, Fault, GC, MoveEvent, TraceError,
    TraceRecord,
};
use crate::text::{char_vec, parse_digits, parse_unsigned, split_words, views_of, words};
use vstd::prelude::*;

verus! {

/// The mark that starts every line of the trace that the debugger wrote.
pub open spec fn line_start() -> Seq<char> {
    seq!['>', '>', '>', ' ']
}

/// An address as the trace writes it: two bytes of prefix (`0x`), then
/// hexadecimal digits. The prefix is whatever the first two bytes of the
/// UTF-8 text hold: one character of two bytes, or two ASCII characters; a
/// text whose third byte does not start a character has no address.
pub open spec fn hex_address(w: Seq<char>) -> Option<u64> {
    if w.len() >= 1 && '\u{80}' <= w[0] && w[0] <= '\u{7ff}' {
        parse_unsigned(w.subrange(1, w.len() as int), 16)
    } else if w.len() >= 2 && w[0] <= '\u{7f}' && w[1] <= '\u{7f}' {
        parse_unsigned(w.subrange(2, w.len() as int), 16)
    } else {
        None
    }
}

/// What one line of the trace says. A line that does not start with the
/// mark says nothing. After the mark, the words `GC <flag>` start an era
/// (major when the flag is 1), and `<from> -> <to> size: <size>` is a move;
/// the words in the second and fourth places are not read.
pub open spec fn line_record(line: Seq<char>) -> Result<Option<TraceRecord>, Fault> {
    if !(line.len() >= 4 && line.subrange(0, 4) == line_start()) {
        Ok(None)
    } else {
        let w = words(line.subrange(4, line.len() as int));
        if w.len() == 0 {
            Err(Fault::MissingField)
        } else if w[0] == seq!['G', 'C'] {
            if w.len() < 2 {
                Err(Fault::MissingField)
            } else {
                match parse_unsigned(w[1], 10) {
                    Some(v) if v <= 255 => Ok(Some(TraceRecord::EraStart { major: v == 1 })),
                    _ => Err(Fault::BadFlag),
                }
            }
        } else {
            match hex_address(w[0]) {
                None => Err(Fault::BadAddress),
                Some(from) => if w.len() < 3 {
                    Err(Fault::MissingField)
                } else {
                    match hex_address(w[2]) {
                        None => Err(Fault::BadAddress),
                        Some(to) => if w.len() < 5 {
                            Err(Fault::MissingField)
                        } else {
                            match parse_unsigned(w[4], 10) {
                                None => Err(Fault::BadSize),
                                Some(size) => Ok(
                                    Some(TraceRecord::Move(MoveEvent { from, to, size })),
                                ),
                            }
                        },
                    }
                },
            }
        }
    }
}

/// The pieces of `t` between line feeds, read one character at a time; a
/// text that ends with a line feed ends with an empty piece.
pub open spec fn split_lines(t: Seq<char>) -> Seq<Seq<char>>
    decreases t.len(),
{
    if t.len() == 0 {
        seq![seq![]]
    } else {
        let ls = split_lines(t.drop_last());
        if t.last() == '\n' {
            ls.push(seq![])
        } else {
            ls.update(ls.len() - 1, ls.last().push(t.last()))
        }
    }
}

/// The builder's state after the lines `ls`, or the first fault with the
/// index of its line.
pub open spec fn replay_lines(ls: Seq<Seq<char>>) -> Result<
    (Seq<EraView>, Option<EraView>),
    TraceError,
>
    decreases ls.len(),
{
    if ls.len() == 0 {
        Ok((seq![], None))
    } else {
        let n = (ls.len() - 1) as usize;
        match replay_lines(ls.drop_last()) {
            Err(e) => Err(e),
            Ok((sealed, cur)) => match line_record(ls.last()) {
                Err(f) => Err(TraceError { line: n, fault: f }),
                Ok(None) => Ok((sealed, cur)),
                Ok(Some(rec)) => match build_step(sealed, cur, rec) {
                    Ok(st) => Ok(st),
                    Err(f) => Err(TraceError { line: n, fault: f }),
                },
            },
        }
    }
}

/// The store of eras that the trace text `t` describes.
pub open spec fn parse_trace(t: Seq<char>) -> Result<Seq<EraView>, TraceError> {
    match replay_lines(split_lines(t)) {
        Err(e) => Err(e),
        Ok((sealed, cur)) => Ok(seal(sealed, cur)),
    }
}

/// Reads an address written as `0x` and hexadecimal digits; the first two
/// bytes are taken as the prefix whatever they are.
pub fn parse_hex(s: &str) -> (r: Option<u64>)
    ensures
        r == hex_address(s@),
{
    let c = char_vec(s);
    hex_of(&c)
}

fn hex_of(w: &Vec<char>) -> (r: Option<u64>)
    ensures
        r == hex_address(w@),
{
    if w.len() >= 1 && '\u{80}' <= w[0] && w[0] <= '\u{7ff}' {
        parse_digits(w, 1, w.len(), 16)
    } else if w.len() >= 2 && w[0] <= '\u{7f}' && w[1] <= '\u{7f}' {
        parse_digits(w, 2, w.len(), 16)
    } else {
        None
    }
}

fn record_of(line: &Vec<char>) -> (r: Result<Option<TraceRecord>, Fault>)
    ensures
        r == line_record(line@),
{
    if !(line.len() >= 4 && line[0] == '>' && line[1] == '>' && line[2] == '>' && line[3] == ' ') {
        proof {
            if line.len() >= 4 {
                if line@.subrange(0, 4) == line_start() {
                    assert(line@.subrange(0, 4)[0] == line@[0]);
                    assert(line@.subrange(0, 4)[1] == line@[1]);
                    assert(line@.subrange(0, 4)[2] == line@[2]);
                    assert(line@.subrange(0, 4)[3] == line@[3]);
                }
            }
        }
        return Ok(None);
    }
    assert(line@.subrange(0, 4) =~= line_start());
    let w = split_words(line, 4);
    let ghost ws = views_of(w@);
    assert(forall|i: int| 0 <= i < w.len() ==> ws[i] == (#[trigger] w@[i])@);
    if w.len() == 0 {
        return Err(Fault::MissingField);
    }
    if w[0].len() == 2 && w[0][0] == 'G' && w[0][1] == 'C' {
        assert(ws[0] =~= seq!['G', 'C']);
        if w.len() < 2 {
            return Err(Fault::MissingField);
        }
        let flag = &w[1];
        match parse_digits(flag, 0, flag.len(), 10) {
            Some(v) => {
                assert(w@[1]@.subrange(0, w@[1]@.len() as int) =~= w@[1]@);
                if v <= 255 {
                    Ok(Some(TraceRecord::EraStart { major: v == 1 }))
                } else {
                    Err(Fault::BadFlag)
                }
            },
            None => {
                assert(w@[1]@.subrange(0, w@[1]@.len() as int) =~= w@[1]@);
                Err(Fault::BadFlag)
            },
        }
    } else {
        proof {
            if ws[0] == seq!['G', 'C'] {
                assert(ws[0][0] == 'G' && ws[0][1] == 'C');
            }
        }
        let from = match hex_of(&w[0]) {
            None => {
                return Err(Fault::BadAddress);
            },
            Some(a) => a,
        };
        if w.len() < 3 {
            return Err(Fault::MissingField);
        }
        let to = match hex_of(&w[2]) {
            None => {
                return Err(Fault::BadAddress);
            },
            Some(a) => a,
        };
        if w.len() < 5 {
            return Err(Fault::MissingField);
        }
        assert(w@[4]@.subrange(0, w@[4]@.len() as int) =~= w@[4]@);
        let size_word = &w[4];
        match parse_digits(size_word, 0, size_word.len(), 10) {
            None => Err(Fault::BadSize),
            Some(size) => Ok(Some(TraceRecord::Move(MoveEvent { from, to, size }))),
        }
    }
}

/// Reads one line of a trace: `Ok(None)` for a line without the mark.
pub fn parse_line(line: &str) -> (r: Result<Option<TraceRecord>, Fault>)
    ensures
        r == line_record(line@),
{
    let c = char_vec(line);
    record_of(&c)
}

fn lines_of(t: &Vec<char>) -> (r: Vec<Vec<char>>)
    ensures
        views_of(r@) == split_lines(t@),
{
    let mut done: Vec<Vec<char>> = Vec::new();
    let mut cur: Vec<char> = Vec::new();
    let mut i: usize = 0;
    assert(t@.take(0) =~= Seq::<char>::empty());
    assert(views_of(done@).push(cur@) =~= seq![seq![]]);
    while i < t.len()
        invariant
            i <= t.len(),
            views_of(done@).push(cur@) == split_lines(t@.take(i as int)),
        decreases t.len() - i,
    {
        let c = t[i];
        assert(t@.take(i + 1).drop_last() =~= t@.take(i as int));
        assert(t@.take(i + 1).last() == c);
        let ghost before = views_of(done@);
        let ghost old_cur = cur@;
        if c == '\n' {
            let w = cur;
            cur = Vec::new();
            done.push(w);
            assert(views_of(done@) =~= before.push(old_cur));
            assert(views_of(done@).push(cur@) =~= before.push(old_cur).push(seq![]));
        } else {
            cur.push(c);
            assert(views_of(done@).push(cur@) =~= before.push(old_cur).update(
                before.len() as int,
                old_cur.push(c),
            ));
        }
        i = i + 1;
    }
    assert(t@.take(t.len() as int) =~= t@);
    let ghost before = views_of(done@);
    let ghost last = cur@;
    done.push(cur);
    assert(views_of(done@) =~= before.push(last));
    done
}

proof fn lemma_replay_lines_err_stays(ls: Seq<Seq<char>>, n: int)
    requires
        0 <= n <= ls.len(),
        replay_lines(ls.take(n)) is Err,
    ensures
        replay_lines(ls) == replay_lines(ls.take(n)),
    decreases ls.len() - n,
{
    if n < ls.len() {
        assert(ls.take(n + 1).drop_last() =~= ls.take(n));
        lemma_replay_lines_err_stays(ls, n + 1);
    } else {
        assert(ls.take(n) =~= ls);
    }
}

/// Reads a whole trace into its store of eras, earliest first, or reports
/// the first line that breaks the grammar or the rules of an era.
pub fn parse(text: &str) -> (r: Result<Vec<GC>, TraceError>)
    ensures
        match parse_trace(text@) {
            Ok(eras) => r is Ok && era_views(r->Ok_0@) == eras,
            Err(e) => r == Err::<Vec<GC>, TraceError>(e),
        },
{
    let t = char_vec(text);
    let lines = lines_of(&t);
    let ghost ls = views_of(lines@);
    let mut b = EraBuilder::new();
    let mut i: usize = 0;
    assert(ls.take(0) =~= Seq::<Seq<char>>::empty());
    while i < lines.len()
        invariant
            i <= lines.len(),
            ls == views_of(lines@),
            ls == split_lines(text@),
            replay_lines(ls.take(i as int)) == Ok::<(Seq<EraView>, Option<EraView>), TraceError>(
                (b.sealed(), b.open_era()),
            ),
        decreases lines.len() - i,
    {
        assert(ls.take(i + 1).drop_last() =~= ls.take(i as int));
        assert(ls.take(i + 1).last() == lines@[i as int]@);
        match record_of(&lines[i]) {
            Err(f) => {
                proof {
                    lemma_replay_lines_err_stays(ls, i + 1);
                }
                return Err(TraceError { line: i, fault: f });
            },
            Ok(None) => {},
            Ok(Some(rec)) => match b.add(rec) {
                Ok(()) => {},
                Err(f) => {
                    proof {
                        lemma_replay_lines_err_stays(ls, i + 1);
                    }
                    return Err(TraceError { line: i, fault: f });
                },
            },
        }
        i = i + 1;
    }
    assert(ls.take(ls.len() as int) =~= ls);
    Ok(b.finish())
}

/// The records that the lines `ls` give, in order; a line without the mark,
/// or one that breaks the grammar, gives none.
pub open spec fn line_records(ls: Seq<Seq<char>>) -> Seq<TraceRecord>
    decreases ls.len(),
{
    if ls.len() == 0 {
        seq![]
    } else {
        line_records(ls.drop_last()) + match line_record(ls.last()) {
            Ok(Some(rec)) => seq![rec],
            _ => seq![],
        }
    }
}

/// Where the lines of a trace are read without a fault, the builder ends as
/// it does on the records that they give.
pub proof fn lemma_lines_as_records(ls: Seq<Seq<char>>)
    ensures
        replay_lines(ls) is Ok ==> replay(line_records(ls)) == replay_lines(ls),
    decreases ls.len(),
{
    if ls.len() > 0 {
        lemma_lines_as_records(ls.drop_last());
        let prev = line_records(ls.drop_last());
        match line_record(ls.last()) {
            Ok(Some(rec)) => {
                assert(line_records(ls).drop_last() =~= prev);
                assert(line_records(ls).last() == rec);
            },
            _ => {
                assert(line_records(ls) =~= prev);
            },
        }
    }
}

/// A trace that reads without a fault has one era for each line that starts
/// one.
pub proof fn lemma_trace_one_era_per_start(t: Seq<char>)
    ensures
        parse_trace(t) is Ok ==> parse_trace(t)->Ok_0.len() == era_starts(
            line_records(split_lines(t)),
        ),
{
    lemma_lines_as_records(split_lines(t));
    lemma_one_era_per_start(line_records(split_lines(t)));
}

/// In every era of a trace that reads without a fault, the forward and the
/// backward index hold the same moves.
pub proof fn lemma_trace_eras_inverse(t: Seq<char>)
    ensures
        parse_trace(t) is Ok ==> forall|i: int|
            0 <= i < parse_trace(t)->Ok_0.len() ==> #[trigger] parse_trace(t)->Ok_0[i].inverse(),
{
    lemma_lines_as_records(split_lines(t));
    lemma_eras_inverse(line_records(split_lines(t)));
}

proof fn lemma_records_grow(ls: Seq<Seq<char>>, n: int, m: int)
    requires
        0 <= n <= m <= ls.len(),
    ensures
        line_records(ls.take(n)).len() <= line_records(ls.take(m)).len(),
        line_records(ls.take(m)).take(line_records(ls.take(n)).len() as int) == line_records(
            ls.take(n),
        ),
    decreases m - n,
{
    if n < m {
        lemma_records_grow(ls, n, m - 1);
        assert(ls.take(m).drop_last() =~= ls.take(m - 1));
        let a = line_records(ls.take(n));
        let b = line_records(ls.take(m - 1));
        let c = line_records(ls.take(m));
        assert(c.take(b.len() as int) =~= b);
        assert(c.take(a.len() as int) =~= b.take(a.len() as int));
    } else {
        assert(line_records(ls.take(n)).take(line_records(ls.take(n)).len() as int)
            =~= line_records(ls.take(n)));
    }
}

proof fn lemma_record_of_line(ls: Seq<Seq<char>>, i: int, rec: TraceRecord)
    requires
        0 <= i < ls.len(),
        line_record(ls[i]) == Ok::<Option<TraceRecord>, Fault>(Some(rec)),
    ensures
        line_records(ls.take(i + 1)) == line_records(ls.take(i)).push(rec),
{
    assert(ls.take(i + 1).drop_last() =~= ls.take(i));
    assert(ls.take(i + 1).last() == ls[i]);
    assert(line_records(ls.take(i + 1)) =~= line_records(ls.take(i)).push(rec));
}

proof fn lemma_no_start_between(ls: Seq<Seq<char>>, i: int, j: int, m: int)
    requires
        0 <= i < m <= j <= ls.len(),
        forall|k: int|
            i < k < j ==> !(#[trigger] line_record(ls[k]) matches Ok(Some(TraceRecord::EraStart { .. }))),
    ensures
        line_records(ls.take(i + 1)).len() <= line_records(ls.take(m)).len(),
        forall|r: int|
            line_records(ls.take(i + 1)).len() <= r < line_records(ls.take(m)).len() ==> !(
            #[trigger] line_records(ls.take(m))[r] is EraStart),
    decreases m,
{
    if m > i + 1 {
        lemma_no_start_between(ls, i, j, m - 1);
        assert(ls.take(m).drop_last() =~= ls.take(m - 1));
        assert(ls.take(m).last() == ls[m - 1]);
        let b = line_records(ls.take(m - 1));
        let c = line_records(ls.take(m));
        assert(!(line_record(ls[m - 1]) matches Ok(Some(TraceRecord::EraStart { .. }))));
        assert forall|r: int|
            line_records(ls.take(i + 1)).len() <= r < c.len() implies !(#[trigger] c[r] is EraStart) by {
            if r < b.len() {
                assert(c[r] == b[r]);
            }
        }
    }
}

/// Two move lines with the same source, with no line between them that
/// starts an era, make the whole trace fail to read.
pub proof fn lemma_trace_same_source_fails(t: Seq<char>, i: int, j: int)
    requires
        0 <= i < j < split_lines(t).len(),
        line_record(split_lines(t)[i]) matches Ok(Some(TraceRecord::Move(m1))),
        line_record(split_lines(t)[j]) matches Ok(Some(TraceRecord::Move(m2))),
        line_record(split_lines(t)[i])->Ok_0->Some_0->Move_0.from == line_record(
            split_lines(t)[j],
        )->Ok_0->Some_0->Move_0.from,
        forall|k: int|
            i < k < j ==> !(#[trigger] line_record(split_lines(t)[k]) matches Ok(
                Some(TraceRecord::EraStart { .. }),
            )),
    ensures
        parse_trace(t) is Err,
{
    let ls = split_lines(t);
    let ri = line_records(ls.take(i)).len() as int;
    let rj = line_records(ls.take(j)).len() as int;
    let recs = line_records(ls);
    let reci = line_record(ls[i])->Ok_0->Some_0;
    let recj = line_record(ls[j])->Ok_0->Some_0;
    lemma_record_of_line(ls, i, reci);
    lemma_record_of_line(ls, j, recj);
    lemma_no_start_between(ls, i, j, j);
    lemma_records_grow(ls, i + 1, ls.len() as int);
    lemma_records_grow(ls, j + 1, ls.len() as int);
    lemma_records_grow(ls, j, ls.len() as int);
    assert(ls.take(ls.len() as int) =~= ls);
    assert(recs[ri] == reci) by {
        assert(recs.take(ri + 1)[ri] == line_records(ls.take(i + 1))[ri]);
    }
    assert(recs[rj] == recj) by {
        assert(recs.take(rj + 1)[rj] == line_records(ls.take(j + 1))[rj]);
    }
    assert forall|k: int| ri < k < rj implies !(#[trigger] recs[k] is EraStart) by {
        assert(recs.take(rj)[k] == line_records(ls.take(j))[k]);
    }
    lemma_same_source_fails(recs, ri, rj);
    lemma_lines_as_records(ls);
}

/// A trace without lines of its own, or with no text at all, gives an empty
/// store.
pub proof fn lemma_empty_trace()
    ensures
        parse_trace(Seq::<char>::empty()) == Ok::<Seq<EraView>, TraceError>(Seq::empty()),
        build_from(Seq::<TraceRecord>::empty()) == Ok::<Seq<EraView>, TraceError>(Seq::empty()),
{
    let ls = split_lines(Seq::<char>::empty());
    assert(ls.drop_last() =~= Seq::<Seq<char>>::empty());
    assert(line_record(ls.last()) == Ok::<Option<TraceRecord>, Fault>(None));
    assert(replay_lines(ls.drop_last()) == Ok::<(Seq<EraView>, Option<EraView>), TraceError>(
        (seq![], None),
    ));
    assert(seal(seq![], None) =~= Seq::<EraView>::empty());
}

} // verus!
