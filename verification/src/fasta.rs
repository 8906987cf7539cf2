use vstd::prelude::*;
use crate::records::{Record, RecordV, rec_views};

verus! {

/// Index of the first line feed in `s`, or `s.len()` if there is none.
pub open spec fn find_nl(s: Seq<u8>) -> int
    decreases s.len(),
{
    if s.len() == 0 {
        0
    } else if s[0] == 10 {
        0
    } else {
        1 + find_nl(s.drop_first())
    }
}

/// Drops one trailing carriage return, so CRLF line endings are accepted.
pub open spec fn strip_cr(l: Seq<u8>) -> Seq<u8> {
    if l.len() > 0 && l.last() == 13 {
        l.drop_last()
    } else {
        l
    }
}

/// The lines of `s`: split at each line feed, each line stripped of one
/// trailing carriage return; a final fragment without a line feed is a
/// line of its own, and empty input has no lines.
pub open spec fn spec_lines(s: Seq<u8>) -> Seq<Seq<u8>>
    decreases s.len(),
{
    if s.len() == 0 {
        Seq::empty()
    } else {
        let i = find_nl(s);
        if 0 <= i < s.len() {
            seq![strip_cr(s.take(i))] + spec_lines(s.skip(i + 1))
        } else {
            seq![strip_cr(s)]
        }
    }
}

/// A header line: nonempty and starting with `>`.
pub open spec fn is_header(l: Seq<u8>) -> bool {
    l.len() > 0 && l[0] == 62
}

/// The records an open parse state contributes when the input ends.
pub open spec fn closed_recs(cur: Option<RecordV>) -> Seq<RecordV> {
    match cur {
        Option::None => Seq::empty(),
        Option::Some(r) => seq![r],
    }
}

/// Folds the lines into records: a header line closes the record being
/// built and opens a new one with the rest of the line as identifier; any
/// other line extends the open record's content; lines before the first
/// header are discarded.
pub open spec fn parse_rec(lines: Seq<Seq<u8>>, cur: Option<RecordV>) -> Seq<RecordV>
    decreases lines.len(),
{
    if lines.len() == 0 {
        closed_recs(cur)
    } else if is_header(lines[0]) {
        closed_recs(cur) + parse_rec(
            lines.drop_first(),
            Option::Some(RecordV { id: lines[0].drop_first(), content: Seq::empty() }),
        )
    } else {
        parse_rec(
            lines.drop_first(),
            match cur {
                Option::None => Option::None,
                Option::Some(r) => Option::Some(
                    RecordV { id: r.id, content: r.content + lines[0] },
                ),
            },
        )
    }
}

/// The records of a FASTA text.
pub open spec fn spec_parse(s: Seq<u8>) -> Seq<RecordV> {
    parse_rec(spec_lines(s), Option::None)
}

/// How many of the lines are header lines.
pub open spec fn header_count(lines: Seq<Seq<u8>>) -> int
    decreases lines.len(),
{
    if lines.len() == 0 {
        0
    } else {
        (if is_header(lines[0]) {
            1int
        } else {
            0int
        }) + header_count(lines.drop_first())
    }
}

/// One record as FASTA text: a header line, then the content as one line.
pub open spec fn emit_one(r: RecordV) -> Seq<u8> {
    seq![62u8] + r.id + seq![10u8] + r.content + seq![10u8]
}

/// A record stream as FASTA text.
pub open spec fn spec_emit(rs: Seq<RecordV>) -> Seq<u8>
    decreases rs.len(),
{
    if rs.len() == 0 {
        Seq::empty()
    } else {
        emit_one(rs[0]) + spec_emit(rs.drop_first())
    }
}

/// A record that single-line FASTA emission represents faithfully: no
/// line feed in either field (it would split the line), no trailing
/// carriage return (parsing strips it), and content that cannot be
/// mistaken for a header line.
pub open spec fn emittable(r: RecordV) -> bool {
    &&& forall|i: int| 0 <= i < r.id.len() ==> r.id[i] != 10
    &&& r.id.len() > 0 ==> r.id.last() != 13
    &&& forall|i: int| 0 <= i < r.content.len() ==> r.content[i] != 10
    &&& r.content.len() > 0 ==> r.content.last() != 13
    &&& r.content.len() > 0 ==> r.content[0] != 62
}

proof fn lemma_find_nl_props(s: Seq<u8>)
    ensures
        0 <= find_nl(s) <= s.len(),
        find_nl(s) < s.len() ==> s[find_nl(s)] == 10,
        forall|k: int| 0 <= k < find_nl(s) ==> s[k] != 10,
    decreases s.len(),
{
    if s.len() > 0 && s[0] != 10 {
        lemma_find_nl_props(s.drop_first());
        assert forall|k: int| 0 <= k < find_nl(s) implies s[k] != 10 by {
            if k > 0 {
                assert(s.drop_first()[k - 1] != 10);
            }
        }
    }
}

proof fn lemma_find_nl_is(s: Seq<u8>, n: int)
    requires
        0 <= n <= s.len(),
        forall|k: int| 0 <= k < n ==> s[k] != 10,
        n < s.len() ==> s[n] == 10,
    ensures
        find_nl(s) == n,
    decreases n,
{
    if n == 0 {
    } else {
        assert(s[0] != 10);
        assert forall|k: int| 0 <= k < n - 1 implies s.drop_first()[k] != 10 by {
            assert(s[k + 1] != 10);
        }
        if n - 1 < s.drop_first().len() {
            assert(s.drop_first()[n - 1] == s[n]);
        }
        lemma_find_nl_is(s.drop_first(), n - 1);
    }
}

/// A record stream has as many records as its text has header lines,
/// plus the record already open when the walk starts.
proof fn lemma_parse_rec_count(lines: Seq<Seq<u8>>, cur: Option<RecordV>)
    ensures
        parse_rec(lines, cur).len() == header_count(lines) + closed_recs(cur).len(),
    decreases lines.len(),
{
    if lines.len() > 0 {
        if is_header(lines[0]) {
            lemma_parse_rec_count(
                lines.drop_first(),
                Option::Some(RecordV { id: lines[0].drop_first(), content: Seq::empty() }),
            );
        } else {
            match cur {
                Option::None => lemma_parse_rec_count(lines.drop_first(), Option::None::<RecordV>),
                Option::Some(r) => lemma_parse_rec_count(
                    lines.drop_first(),
                    Option::Some(RecordV { id: r.id, content: r.content + lines[0] }),
                ),
            }
        }
    }
}

/// The parsed record count is exactly the number of header lines.
pub proof fn lemma_parse_count(data: Seq<u8>)
    ensures
        spec_parse(data).len() == header_count(spec_lines(data)),
{
    lemma_parse_rec_count(spec_lines(data), Option::None::<RecordV>);
}

/// Splitting into lines distributes over concatenation at a line boundary.
proof fn lemma_lines_concat(a: Seq<u8>, b: Seq<u8>)
    requires
        a.len() == 0 || a.last() == 10,
    ensures
        spec_lines(a + b) == spec_lines(a) + spec_lines(b),
    decreases a.len(),
{
    if a.len() == 0 {
        assert(a + b =~= b);
        assert(spec_lines(a) + spec_lines(b) =~= spec_lines(b));
    } else {
        lemma_find_nl_props(a);
        let i = find_nl(a);
        assert(a[a.len() - 1] == 10);
        if i == a.len() {
            assert(a[a.len() - 1] != 10);
        }
        assert(0 <= i < a.len());
        assert forall|k: int| 0 <= k < i implies (a + b)[k] != 10 by {
            assert(a[k] != 10);
        }
        assert((a + b)[i] == a[i]);
        lemma_find_nl_is(a + b, i);
        assert((a + b).take(i) =~= a.take(i));
        assert((a + b).skip(i + 1) =~= a.skip(i + 1) + b);
        if a.skip(i + 1).len() > 0 {
            assert(a.skip(i + 1).last() == a.last());
        }
        lemma_lines_concat(a.skip(i + 1), b);
        if b.len() == 0 {
            assert(a + b =~= a);
        }
        assert(spec_lines(a + b) =~= spec_lines(a) + spec_lines(b));
    }
}

/// Folding lines distributes over concatenation when the second part
/// starts with a header line (or is empty).
proof fn lemma_parse_rec_concat(la: Seq<Seq<u8>>, lb: Seq<Seq<u8>>, cur: Option<RecordV>)
    requires
        lb.len() == 0 || is_header(lb[0]),
    ensures
        parse_rec(la + lb, cur) == parse_rec(la, cur) + parse_rec(lb, Option::None::<RecordV>),
    decreases la.len(),
{
    if la.len() == 0 {
        assert(la + lb =~= lb);
        if lb.len() == 0 {
            assert(parse_rec(la, cur) + parse_rec(lb, Option::None::<RecordV>) =~= closed_recs(
                cur,
            ));
        } else {
            let next = Option::Some(
                RecordV { id: lb[0].drop_first(), content: Seq::empty() },
            );
            assert(parse_rec(lb, cur) == closed_recs(cur) + parse_rec(lb.drop_first(), next));
            assert(parse_rec(lb, Option::None::<RecordV>) == closed_recs(Option::None::<RecordV>)
                + parse_rec(lb.drop_first(), next));
            assert(parse_rec(la, cur) + parse_rec(lb, Option::None::<RecordV>) =~= parse_rec(
                lb,
                cur,
            ));
        }
    } else {
        assert((la + lb)[0] == la[0]);
        assert((la + lb).drop_first() =~= la.drop_first() + lb);
        if is_header(la[0]) {
            let next = Option::Some(
                RecordV { id: la[0].drop_first(), content: Seq::empty() },
            );
            lemma_parse_rec_concat(la.drop_first(), lb, next);
            assert(parse_rec(la + lb, cur) =~= parse_rec(la, cur) + parse_rec(
                lb,
                Option::None::<RecordV>,
            ));
        } else {
            let next = match cur {
                Option::None => Option::None::<RecordV>,
                Option::Some(r) => Option::Some(
                    RecordV { id: r.id, content: r.content + la[0] },
                ),
            };
            lemma_parse_rec_concat(la.drop_first(), lb, next);
        }
    }
}

/// Concatenation equivalence: when `a` ends at a line boundary and `b`
/// starts with a header line (both may also be empty), parsing the
/// concatenated text yields the records of `a` followed by those of `b` —
/// so analyzing two files in order equals analyzing one file holding both.
pub proof fn lemma_parse_concat(a: Seq<u8>, b: Seq<u8>)
    requires
        a.len() == 0 || a.last() == 10,
        b.len() == 0 || b[0] == 62,
    ensures
        spec_parse(a + b) == spec_parse(a) + spec_parse(b),
{
    lemma_lines_concat(a, b);
    let lb = spec_lines(b);
    if b.len() > 0 {
        lemma_find_nl_props(b);
        let i = find_nl(b);
        if i == 0 {
            assert(b[0] == 10);
        }
        assert(i >= 1);
        if 0 <= i < b.len() {
            assert(b.take(i)[0] == b[0]);
            assert(is_header(strip_cr(b.take(i))));
            assert(lb[0] == strip_cr(b.take(i)));
        } else {
            assert(is_header(strip_cr(b)));
            assert(lb[0] == strip_cr(b));
        }
    }
    lemma_parse_rec_concat(spec_lines(a), lb, Option::None::<RecordV>);
}

/// The two lines of one emitted record: its header line and its content.
proof fn lemma_lines_emit_one(r: RecordV)
    requires
        emittable(r),
    ensures
        spec_lines(emit_one(r)) == seq![seq![62u8] + r.id, r.content],
{
    let e = emit_one(r);
    let hdr = seq![62u8] + r.id;
    assert(e.len() == r.id.len() + r.content.len() + 3);
    assert forall|k: int| 0 <= k < 1 + r.id.len() implies e[k] != 10 by {
        if k > 0 {
            assert(e[k] == r.id[k - 1]);
        }
    }
    assert(e[1 + r.id.len() as int] == 10);
    lemma_find_nl_is(e, 1 + r.id.len() as int);
    let i: int = 1 + r.id.len() as int;
    assert(e.take(i) =~= hdr);
    assert(strip_cr(hdr) == hdr) by {
        if hdr.len() > 0 && hdr.last() == 13 {
            if r.id.len() == 0 {
                assert(hdr.last() == 62);
            } else {
                assert(hdr.last() == r.id[r.id.len() - 1]);
            }
        }
    }
    let rest = e.skip(i + 1);
    assert(rest =~= r.content + seq![10u8]);
    assert forall|k: int| 0 <= k < r.content.len() implies rest[k] != 10 by {
        assert(rest[k] == r.content[k]);
    }
    assert(rest[r.content.len() as int] == 10);
    lemma_find_nl_is(rest, r.content.len() as int);
    assert(rest.take(r.content.len() as int) =~= r.content);
    assert(strip_cr(r.content) == r.content) by {
        if r.content.len() > 0 && r.content.last() == 13 {
            assert(r.content[r.content.len() - 1] != 13);
        }
    }
    assert(rest.skip(r.content.len() as int + 1) =~= Seq::<u8>::empty());
    assert(spec_lines(Seq::<u8>::empty()) == Seq::<Seq<u8>>::empty());
    assert(spec_lines(rest.skip(r.content.len() as int + 1)) == Seq::<Seq<u8>>::empty());
    assert(strip_cr(rest.take(r.content.len() as int)) == r.content);
    assert(spec_lines(rest) =~= seq![r.content]);
    assert(spec_lines(e) =~= seq![hdr, r.content]);
}

/// Round trip: emitting records as FASTA and parsing the text back yields
/// the same records, for records that single-line emission represents
/// faithfully (no line terminators in the fields, content not starting
/// with `>`).
pub proof fn lemma_fasta_round_trip(rs: Seq<RecordV>)
    requires
        forall|i: int| 0 <= i < rs.len() ==> emittable(#[trigger] rs[i]),
    ensures
        spec_parse(spec_emit(rs)) == rs,
    decreases rs.len(),
{
    if rs.len() == 0 {
        assert(spec_parse(spec_emit(rs)) =~= rs);
    } else {
        let r0 = rs[0];
        let rest = rs.drop_first();
        let e0 = emit_one(r0);
        let erest = spec_emit(rest);
        assert(e0.last() == 10);
        lemma_lines_concat(e0, erest);
        lemma_lines_emit_one(r0);
        let l0 = seq![seq![62u8] + r0.id, r0.content];
        let lrest = spec_lines(erest);
        if rest.len() > 0 {
            lemma_lines_concat(emit_one(rest[0]), spec_emit(rest.drop_first()));
            lemma_lines_emit_one(rest[0]);
            assert(erest == emit_one(rest[0]) + spec_emit(rest.drop_first()));
            assert(lrest[0] == seq![62u8] + rest[0].id);
            assert(is_header(lrest[0]));
        }
        lemma_parse_rec_concat(l0, lrest, Option::None::<RecordV>);
        assert forall|i: int| 0 <= i < rest.len() implies emittable(#[trigger] rest[i]) by {
            assert(rest[i] == rs[i + 1]);
        }
        lemma_fasta_round_trip(rest);
        // parse the two lines of the first record by hand
        let hdr = seq![62u8] + r0.id;
        let opened = Option::Some(RecordV { id: hdr.drop_first(), content: Seq::empty() });
        assert(l0[0] == hdr && is_header(hdr));
        assert(l0.drop_first() =~= seq![r0.content]);
        assert(!is_header(r0.content));
        let filled = Option::Some(
            RecordV {
                id: hdr.drop_first(),
                content: Seq::<u8>::empty() + r0.content,
            },
        );
        assert(seq![r0.content].drop_first() =~= Seq::<Seq<u8>>::empty());
        assert(parse_rec(l0, Option::None::<RecordV>) == closed_recs(Option::None::<RecordV>)
            + parse_rec(seq![r0.content], opened));
        assert(parse_rec(seq![r0.content], opened) == parse_rec(
            Seq::<Seq<u8>>::empty(),
            filled,
        ));
        assert(hdr.drop_first() =~= r0.id);
        assert(Seq::<u8>::empty() + r0.content =~= r0.content);
        assert(closed_recs(filled) =~= seq![r0]);
        assert(parse_rec(l0, Option::None::<RecordV>) =~= seq![r0]);
        assert(spec_parse(spec_emit(rs)) =~= rs);
    }
}

/// Appends `src[a..b]` to `dst`.
fn push_range(dst: &mut Vec<u8>, src: &Vec<u8>, a: usize, b: usize)
    requires
        a <= b <= src@.len(),
    ensures
        final(dst)@ == old(dst)@ + src@.subrange(a as int, b as int),
{
    let mut k = a;
    while k < b
        invariant
            a <= k <= b <= src@.len(),
            dst@ == old(dst)@ + src@.subrange(a as int, k as int),
        decreases b - k,
    {
        dst.push(src[k]);
        proof {
            assert(src@.subrange(a as int, k as int + 1) =~= src@.subrange(
                a as int,
                k as int,
            ).push(src@[k as int]));
        }
        k += 1;
    }
    proof {
        assert(dst@ =~= old(dst)@ + src@.subrange(a as int, b as int));
    }
}

/// Parses FASTA text into records, line by line: a `>` line opens a
/// record whose identifier is the rest of that line; other lines extend
/// the open record's content with their bytes (line feeds and one
/// trailing carriage return per line removed); bytes before the first
/// header line are discarded.
pub fn parse_fasta(data: &Vec<u8>) -> (rs: Vec<Record>)
    ensures
        rec_views(rs@) == spec_parse(data@),
{
    let n = data.len();
    let mut rs: Vec<Record> = Vec::new();
    let mut open = false;
    let mut cur_id: Vec<u8> = Vec::new();
    let mut cur_content: Vec<u8> = Vec::new();
    let mut pos: usize = 0;
    proof {
        assert(data@.skip(0) =~= data@);
    }
    while pos < n
        invariant
            n == data@.len(),
            pos <= n,
            spec_parse(data@) == rec_views(rs@) + parse_rec(
                spec_lines(data@.skip(pos as int)),
                if open {
                    Option::Some(RecordV { id: cur_id@, content: cur_content@ })
                } else {
                    Option::None
                },
            ),
        decreases n - pos,
    {
        let ghost cur = if open {
            Option::Some(RecordV { id: cur_id@, content: cur_content@ })
        } else {
            Option::None::<RecordV>
        };
        let ghost s = data@.skip(pos as int);
        let mut j = pos;
        while j < n && data[j] != 10
            invariant
                pos <= j <= n,
                n == data@.len(),
                forall|k: int| pos <= k < j ==> data@[k] != 10,
            decreases n - j,
        {
            j += 1;
        }
        proof {
            assert forall|k: int| 0 <= k < j - pos implies s[k] != 10 by {
                assert(data@[pos + k] != 10);
            }
            if j < n {
                assert(s[j - pos] == data@[j as int]);
            }
            lemma_find_nl_is(s, j - pos);
        }
        let line_end = if j > pos && data[j - 1] == 13 {
            j - 1
        } else {
            j
        };
        let ghost line = strip_cr(if j < n {
            s.take(j - pos)
        } else {
            s
        });
        proof {
            if j < n {
                assert(s.take(j - pos) =~= data@.subrange(pos as int, j as int));
            } else {
                assert(s =~= data@.subrange(pos as int, j as int));
            }
            if j > pos && data@[j - 1] == 13 {
                assert(data@.subrange(pos as int, j as int).last() == 13);
                assert(data@.subrange(pos as int, j as int).drop_last() =~= data@.subrange(
                    pos as int,
                    line_end as int,
                ));
            } else if j > pos {
                assert(data@.subrange(pos as int, j as int).last() == data@[j - 1]);
            }
            assert(line =~= data@.subrange(pos as int, line_end as int));
            assert(line.len() == line_end - pos);
            if line_end > pos {
                assert(line[0] == data@[pos as int]);
            }
        }
        let next_pos = if j < n {
            j + 1
        } else {
            n
        };
        proof {
            // one line peeled from the remaining text
            if j < n {
                assert(spec_lines(s) == seq![line] + spec_lines(s.skip(j - pos + 1)));
                assert(s.skip(j - pos + 1) =~= data@.skip(next_pos as int));
            } else {
                assert(spec_lines(s) == seq![line]);
                assert(data@.skip(next_pos as int) =~= Seq::<u8>::empty());
                assert(seq![line] =~= seq![line] + spec_lines(data@.skip(next_pos as int)));
            }
            assert(spec_lines(s) == seq![line] + spec_lines(data@.skip(next_pos as int)));
            assert((seq![line] + spec_lines(data@.skip(next_pos as int)))[0] == line);
            assert((seq![line] + spec_lines(data@.skip(next_pos as int))).drop_first()
                =~= spec_lines(data@.skip(next_pos as int)));
        }
        if line_end > pos && data[pos] == 62 {
            proof {
                assert(is_header(line));
            }
            if open {
                let ghost old_views = rec_views(rs@);
                rs.push(Record { id: cur_id, content: cur_content });
                proof {
                    assert(rec_views(rs@) =~= old_views.push(rs@.last()@));
                    assert(old_views.push(rs@.last()@) =~= old_views + closed_recs(cur));
                }
                cur_id = Vec::new();
                cur_content = Vec::new();
            } else {
                proof {
                    assert(rec_views(rs@) + closed_recs(cur) =~= rec_views(rs@));
                }
                cur_id = Vec::new();
                cur_content = Vec::new();
            }
            push_range(&mut cur_id, data, pos + 1, line_end);
            open = true;
            proof {
                assert(cur_id@ =~= line.drop_first());
                assert(cur_content@ =~= Seq::<u8>::empty());
            }
        } else {
            proof {
                assert(!is_header(line));
            }
            if open {
                let ghost old_content = cur_content@;
                push_range(&mut cur_content, data, pos, line_end);
                proof {
                    assert(cur_content@ =~= old_content + line);
                }
            }
        }
        pos = next_pos;
    }
    proof {
        assert(data@.skip(pos as int) =~= Seq::<u8>::empty());
        assert(spec_lines(data@.skip(pos as int)) =~= Seq::<Seq<u8>>::empty());
    }
    if open {
        let ghost old_views = rec_views(rs@);
        let ghost cur = Option::Some(RecordV { id: cur_id@, content: cur_content@ });
        rs.push(Record { id: cur_id, content: cur_content });
        proof {
            assert(rec_views(rs@) =~= old_views.push(rs@.last()@));
            assert(old_views.push(rs@.last()@) =~= old_views + closed_recs(cur));
        }
    } else {
        proof {
            assert(rec_views(rs@) + closed_recs(Option::None::<RecordV>) =~= rec_views(rs@));
        }
    }
    rs
}

proof fn lemma_emit_push(vs: Seq<RecordV>, r: RecordV)
    ensures
        spec_emit(vs.push(r)) == spec_emit(vs) + emit_one(r),
    decreases vs.len(),
{
    if vs.len() == 0 {
        assert(vs.push(r).drop_first() =~= Seq::<RecordV>::empty());
        assert(vs.push(r)[0] == r);
        assert(spec_emit(Seq::<RecordV>::empty()) == Seq::<u8>::empty());
        assert(spec_emit(vs.push(r)) == emit_one(r) + Seq::<u8>::empty());
        assert(emit_one(r) + Seq::<u8>::empty() =~= Seq::<u8>::empty() + emit_one(r));
    } else {
        assert(vs.push(r).drop_first() =~= vs.drop_first().push(r));
        assert(vs.push(r)[0] == vs[0]);
        lemma_emit_push(vs.drop_first(), r);
        assert(vs.push(r).len() > 0);
        assert(spec_emit(vs.push(r)) == emit_one(vs.push(r)[0]) + spec_emit(
            vs.push(r).drop_first(),
        ));
        assert(spec_emit(vs.push(r)) == emit_one(vs[0]) + (spec_emit(vs.drop_first()) + emit_one(
            r,
        )));
        assert(spec_emit(vs) == emit_one(vs[0]) + spec_emit(vs.drop_first()));
        assert((emit_one(vs[0]) + spec_emit(vs.drop_first())) + emit_one(r) =~= emit_one(vs[0]) + (
        spec_emit(vs.drop_first()) + emit_one(r)));
    }
}

/// Renders records back as FASTA text: `>id`, a line feed, the content,
/// a line feed, for each record in order.
pub fn emit_fasta(rs: &Vec<Record>) -> (out: Vec<u8>)
    ensures
        out@ == spec_emit(rec_views(rs@)),
{
    let mut out: Vec<u8> = Vec::new();
    let mut i: usize = 0;
    proof {
        assert(rec_views(rs@.take(0)) =~= Seq::<RecordV>::empty());
    }
    while i < rs.len()
        invariant
            i <= rs@.len(),
            out@ == spec_emit(rec_views(rs@.take(i as int))),
        decreases rs@.len() - i,
    {
        let ghost prev = rec_views(rs@.take(i as int));
        let r = &rs[i];
        out.push(62);
        push_range(&mut out, &r.id, 0, r.id.len());
        out.push(10);
        push_range(&mut out, &r.content, 0, r.content.len());
        out.push(10);
        proof {
            assert(r.id@.subrange(0, r.id@.len() as int) =~= r.id@);
            assert(r.content@.subrange(0, r.content@.len() as int) =~= r.content@);
            assert(out@ =~= spec_emit(prev) + emit_one(rs@[i as int]@));
            assert(rec_views(rs@.take(i as int + 1)) =~= prev.push(rs@[i as int]@));
            lemma_emit_push(prev, rs@[i as int]@);
        }
        i += 1;
    }
    proof {
        assert(rs@.take(rs@.len() as int) =~= rs@);
    }
    out
}

} // verus!
