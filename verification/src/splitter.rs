//! The chapter splitter: the pure transform at the heart of the pipeline.
//! A source file is a sequence of lines; a line equal to the delimiter token
//! closes the chapter accumulated so far. The splitter yields the chapter
//! contents up to the configured ceiling, and plans which chapter files to
//! write, skipping names already present so that a re-run never overwrites.

use vstd::prelude::*;
use crate::text::dec_str;
use crate::text::has_char;
use crate::text::head_before_first;
use crate::text::tail_after_first;
use crate::text::render_i32;
use crate::text::str_eq;
use crate::text::find_char;

verus! {

/// Lines joined with a newline between them.
pub open spec fn join_lines(lines: Seq<Seq<char>>) -> Seq<char>
    decreases lines.len(),
{
    if lines.len() == 0 {
        Seq::empty()
    } else if lines.len() == 1 {
        lines[0]
    } else {
        lines[0] + seq!['\n'] + join_lines(lines.drop_first())
    }
}

proof fn lemma_join_lines_push(lines: Seq<Seq<char>>, x: Seq<char>)
    ensures
        join_lines(lines.push(x)) == if lines.len() == 0 {
            x
        } else {
            join_lines(lines) + seq!['\n'] + x
        },
    decreases lines.len(),
{
    let p = lines.push(x);
    if lines.len() == 0 {
        assert(p.len() == 1);
        assert(p[0] == x);
    } else {
        lemma_join_lines_push(lines.drop_first(), x);
        assert(p.drop_first() =~= lines.drop_first().push(x));
        if lines.len() == 1 {
            assert(join_lines(p) =~= join_lines(lines) + seq!['\n'] + x);
        } else {
            assert(join_lines(p) =~= join_lines(lines) + seq!['\n'] + x);
        }
    }
}

/// Joins accumulated lines with a newline between them.
fn join_lines_exec(buf: &Vec<String>) -> (r: String)
    ensures
        r@ == join_lines(buf.deep_view()),
{
    let mut out = String::new();
    let mut i: usize = 0;
    while i < buf.len()
        invariant
            i <= buf.len(),
            out@ == join_lines(buf.deep_view().take(i as int)),
        decreases buf.len() - i,
    {
        if i > 0 {
            out.append("\n");
        }
        out.append(buf[i].as_str());
        proof {
            reveal_strlit("\n");
            let t = buf.deep_view().take(i as int);
            assert(buf.deep_view().take(i + 1) =~= t.push(buf.deep_view()[i as int]));
            lemma_join_lines_push(t, buf.deep_view()[i as int]);
            assert(out@ =~= join_lines(buf.deep_view().take(i + 1)));
        }
        i += 1;
    }
    proof {
        assert(buf.deep_view().take(buf.len() as int) =~= buf.deep_view());
    }
    out
}

/// The chapter segments of a line sequence, given a buffer of lines already
/// accumulated: a line equal to the delimiter closes the buffer, whose
/// joined content is a segment when non-empty; lines after the last
/// delimiter close no segment.
pub open spec fn segments_from(
    lines: Seq<Seq<char>>,
    delim: Seq<char>,
    buf: Seq<Seq<char>>,
) -> Seq<Seq<char>>
    decreases lines.len(),
{
    if lines.len() == 0 {
        Seq::empty()
    } else if lines.first() == delim {
        let content = join_lines(buf);
        let rest = segments_from(lines.drop_first(), delim, Seq::empty());
        if content.len() > 0 {
            seq![content] + rest
        } else {
            rest
        }
    } else {
        segments_from(lines.drop_first(), delim, buf.push(lines.first()))
    }
}

/// The delimiter-bounded non-empty chapter segments of a line sequence.
pub open spec fn segments(lines: Seq<Seq<char>>, delim: Seq<char>) -> Seq<Seq<char>> {
    segments_from(lines, delim, Seq::empty())
}

/// How many chapter files the ceiling allows: indexes run from 0 up to
/// `stop`, so `stop + 1` files, and none when the ceiling is negative.
pub open spec fn ceiling_limit(stop: int) -> int {
    if stop < 0 {
        0
    } else {
        stop + 1
    }
}

/// How many chapter files a split of `lines` emits: one per segment, capped
/// by the ceiling.
pub open spec fn emitted_count(lines: Seq<Seq<char>>, delim: Seq<char>, stop: int) -> int {
    let available = segments(lines, delim).len() as int;
    if available <= ceiling_limit(stop) {
        available
    } else {
        ceiling_limit(stop)
    }
}

/// Splits a source file, given as its lines, into chapter contents: the
/// delimiter-bounded non-empty segments, in order, up to the ceiling.
/// Exactly `min(D, stop + 1)` chapters come out of a file with `D` such
/// segments.
pub fn split_chapters(lines: &Vec<String>, delimiter: &str, stop: i32) -> (r: Vec<String>)
    ensures
        r.deep_view() == segments(lines.deep_view(), delimiter@).take(
            emitted_count(lines.deep_view(), delimiter@, stop as int),
        ),
        r.deep_view().len() == emitted_count(lines.deep_view(), delimiter@, stop as int),
{
    let ghost all = segments(lines.deep_view(), delimiter@);
    let limit: u64 = if stop < 0 {
        0
    } else {
        stop as u64 + 1
    };
    let mut result: Vec<String> = Vec::new();
    let mut buf: Vec<String> = Vec::new();
    let mut i: usize = 0;
    proof {
        assert(lines.deep_view().skip(0) =~= lines.deep_view());
        assert(result.deep_view() =~= Seq::<Seq<char>>::empty());
        assert(buf.deep_view() =~= Seq::<Seq<char>>::empty());
        assert(result.deep_view() + segments_from(lines.deep_view(), delimiter@, buf.deep_view())
            =~= all);
    }
    while i < lines.len() && (result.len() as u64) < limit
        invariant
            i <= lines.len(),
            limit == ceiling_limit(stop as int),
            result.len() as int <= limit as int,
            all == segments(lines.deep_view(), delimiter@),
            all == result.deep_view() + segments_from(
                lines.deep_view().skip(i as int),
                delimiter@,
                buf.deep_view(),
            ),
        decreases lines.len() - i,
    {
        let ghost pending = lines.deep_view().skip(i as int);
        let ghost bdv = buf.deep_view();
        let ghost rdv = result.deep_view();
        proof {
            assert(pending.drop_first() =~= lines.deep_view().skip(i + 1));
            assert(pending.first() == lines[i as int]@);
        }
        let line = &lines[i];
        if str_eq(line.as_str(), delimiter) {
            let ghost rest = segments_from(
                lines.deep_view().skip(i + 1),
                delimiter@,
                Seq::<Seq<char>>::empty(),
            );
            let content = join_lines_exec(&buf);
            let ghost cv = content@;
            if content.unicode_len() > 0 {
                proof {
                    assert(segments_from(pending, delimiter@, bdv) =~= seq![cv] + rest);
                }
                result.push(content);
                proof {
                    assert(result.deep_view() =~= rdv.push(cv));
                    assert(rdv + (seq![cv] + rest) =~= rdv.push(cv) + rest);
                }
            } else {
                proof {
                    assert(segments_from(pending, delimiter@, bdv) =~= rest);
                }
            }
            buf = Vec::new();
            proof {
                assert(buf.deep_view() =~= Seq::<Seq<char>>::empty());
            }
        } else {
            let ghost lv = line@;
            buf.push(line.clone());
            proof {
                assert(buf.deep_view() =~= bdv.push(lv));
                assert(segments_from(pending, delimiter@, bdv) == segments_from(
                    pending.drop_first(),
                    delimiter@,
                    bdv.push(lv),
                ));
            }
        }
        i += 1;
    }
    proof {
        let emitted = emitted_count(lines.deep_view(), delimiter@, stop as int);
        if i == lines.len() {
            assert(lines.deep_view().skip(i as int) =~= Seq::<Seq<char>>::empty());
            assert(all == result.deep_view());
            assert(result.deep_view() =~= all.take(emitted));
        } else {
            assert(result.len() as u64 == limit);
            assert(result.deep_view() =~= all.take(emitted));
        }
    }
    result
}

/// Name of chapter file `idx` for a base name and extension:
/// `<base><idx>.<ext>`.
pub open spec fn artifact_name_spec(base: Seq<char>, idx: int, ext: Seq<char>) -> Seq<char> {
    base + dec_str(idx) + seq!['.'] + ext
}

/// Builds the name of one chapter file.
pub fn artifact_name(base: &str, idx: i32, ext: &str) -> (r: String)
    ensures
        r@ == artifact_name_spec(base@, idx as int, ext@),
{
    let mut out = String::from_str(base);
    let digits = render_i32(idx);
    out.append(digits.as_str());
    out.append(".");
    out.append(ext);
    proof {
        reveal_strlit(".");
        assert(out@ =~= artifact_name_spec(base@, idx as int, ext@));
    }
    out
}

/// One chapter file to be written: its name inside the output directory and
/// its content.
pub struct Artifact {
    pub name: String,
    pub content: String,
}

impl View for Artifact {
    type V = (Seq<char>, Seq<char>);

    open spec fn view(&self) -> (Seq<char>, Seq<char>) {
        (self.name@, self.content@)
    }
}

impl DeepView for Artifact {
    type V = (Seq<char>, Seq<char>);

    open spec fn deep_view(&self) -> (Seq<char>, Seq<char>) {
        self.view()
    }
}

/// The writes one run performs: one chapter file per segment, in index
/// order, skipping every name already present, so that a file, once
/// written, is never overwritten.
pub open spec fn write_plan(
    segs: Seq<Seq<char>>,
    base: Seq<char>,
    ext: Seq<char>,
    present: Seq<Seq<char>>,
) -> Seq<(Seq<char>, Seq<char>)>
    decreases segs.len(),
{
    if segs.len() == 0 {
        Seq::empty()
    } else {
        let rest = write_plan(segs.drop_last(), base, ext, present);
        let idx = segs.len() - 1;
        let name = artifact_name_spec(base, idx as int, ext);
        if present.contains(name) {
            rest
        } else {
            rest.push((name, segs.last()))
        }
    }
}

/// True iff a name stands in the list of names already present.
pub fn contains_name(present: &Vec<String>, name: &str) -> (r: bool)
    ensures
        r == present.deep_view().contains(name@),
{
    let mut j: usize = 0;
    while j < present.len()
        invariant
            j <= present.len(),
            forall|k: int| 0 <= k < j ==> present.deep_view()[k] != name@,
        decreases present.len() - j,
    {
        if str_eq(present[j].as_str(), name) {
            proof {
                assert(present.deep_view()[j as int] == name@);
            }
            return true;
        }
        j += 1;
    }
    proof {
        assert(forall|k: int| 0 <= k < present.deep_view().len() ==> present.deep_view()[k]
            != name@);
    }
    false
}

/// Plans the writes for the given chapter segments: artifact `idx` gets
/// segment `idx`; names already present are skipped, never overwritten.
pub fn plan_writes(segs: &Vec<String>, base: &str, ext: &str, present: &Vec<String>) -> (r: Vec<
    Artifact,
>)
    requires
        segs.len() <= i32::MAX,
    ensures
        r.deep_view() == write_plan(segs.deep_view(), base@, ext@, present.deep_view()),
{
    let mut out: Vec<Artifact> = Vec::new();
    let mut idx: usize = 0;
    proof {
        assert(segs.deep_view().subrange(0, 0) =~= Seq::<Seq<char>>::empty());
        assert(out.deep_view() =~= Seq::<(Seq<char>, Seq<char>)>::empty());
    }
    while idx < segs.len()
        invariant
            idx <= segs.len(),
            idx <= i32::MAX,
            segs.len() <= i32::MAX,
            out.deep_view() == write_plan(
                segs.deep_view().subrange(0, idx as int),
                base@,
                ext@,
                present.deep_view(),
            ),
        decreases segs.len() - idx,
    {
        let ghost prefix = segs.deep_view().subrange(0, idx as int);
        let name = artifact_name(base, idx as i32, ext);
        let ghost nv = name@;
        let ghost odv = out.deep_view();
        if !contains_name(present, name.as_str()) {
            let content = segs[idx].clone();
            let ghost cv = content@;
            out.push(Artifact { name, content });
            proof {
                assert(out.deep_view() =~= odv.push((nv, cv)));
            }
        }
        proof {
            let next = segs.deep_view().subrange(0, idx + 1);
            assert(next.drop_last() =~= prefix);
            assert(next.last() == segs.deep_view()[idx as int]);
        }
        idx += 1;
    }
    proof {
        assert(segs.deep_view().subrange(0, segs.len() as int) =~= segs.deep_view());
    }
    out
}

/// Names of the files a plan writes.
pub open spec fn plan_names(plan: Seq<(Seq<char>, Seq<char>)>) -> Seq<Seq<char>> {
    plan.map_values(|w: (Seq<char>, Seq<char>)| w.0)
}

proof fn lemma_plan_covers(
    segs: Seq<Seq<char>>,
    base: Seq<char>,
    ext: Seq<char>,
    present: Seq<Seq<char>>,
    i: int,
)
    requires
        0 <= i < segs.len(),
    ensures
        present.contains(artifact_name_spec(base, i, ext)) || plan_names(
            write_plan(segs, base, ext, present),
        ).contains(artifact_name_spec(base, i, ext)),
    decreases segs.len(),
{
    let name = artifact_name_spec(base, i, ext);
    let rest = write_plan(segs.drop_last(), base, ext, present);
    let plan = write_plan(segs, base, ext, present);
    if i == segs.len() - 1 {
        if !present.contains(name) {
            assert(plan_names(plan)[plan.len() - 1] == name);
        }
    } else {
        lemma_plan_covers(segs.drop_last(), base, ext, present, i);
        if !present.contains(name) {
            let j = choose|j: int| 0 <= j < rest.len() && plan_names(rest)[j] == name;
            assert(plan_names(plan)[j] == name);
        }
    }
}

proof fn lemma_plan_empty_when_all_present(
    segs: Seq<Seq<char>>,
    base: Seq<char>,
    ext: Seq<char>,
    present: Seq<Seq<char>>,
)
    requires
        forall|i: int| 0 <= i < segs.len() ==> present.contains(
            #[trigger] artifact_name_spec(base, i, ext),
        ),
    ensures
        write_plan(segs, base, ext, present).len() == 0,
    decreases segs.len(),
{
    if segs.len() > 0 {
        lemma_plan_empty_when_all_present(segs.drop_last(), base, ext, present);
    }
}

/// Splitting the same input twice against the same directory is idempotent:
/// after a first run every chapter name is present, so a second run over the
/// same segments plans no write at all, and the file set is unchanged.
pub proof fn lemma_split_idempotent(
    segs: Seq<Seq<char>>,
    base: Seq<char>,
    ext: Seq<char>,
    present: Seq<Seq<char>>,
)
    ensures
        write_plan(
            segs,
            base,
            ext,
            present + plan_names(write_plan(segs, base, ext, present)),
        ).len() == 0,
        ({
            let after = present + plan_names(write_plan(segs, base, ext, present));
            after + plan_names(write_plan(segs, base, ext, after)) == after
        }),
{
    let pn = plan_names(write_plan(segs, base, ext, present));
    let after = present + pn;
    assert forall|i: int| 0 <= i < segs.len() implies after.contains(
        #[trigger] artifact_name_spec(base, i, ext),
    ) by {
        let name = artifact_name_spec(base, i, ext);
        lemma_plan_covers(segs, base, ext, present, i);
        if present.contains(name) {
            let j = choose|j: int| 0 <= j < present.len() && present[j] == name;
            assert(after[j] == name);
        } else {
            let j = choose|j: int| 0 <= j < pn.len() && pn[j] == name;
            assert(after[present.len() + j] == name);
        }
    }
    lemma_plan_empty_when_all_present(segs, base, ext, after);
    assert(after + plan_names(write_plan(segs, base, ext, after)) =~= after);
}

proof fn lemma_segments_count(lines: Seq<Seq<char>>, delim: Seq<char>, buf: Seq<Seq<char>>)
    ensures
        segments_from(lines, delim, buf).len() <= lines.len(),
    decreases lines.len(),
{
    if lines.len() > 0 {
        if lines.first() == delim {
            lemma_segments_count(lines.drop_first(), delim, Seq::empty());
        } else {
            lemma_segments_count(lines.drop_first(), delim, buf.push(lines.first()));
        }
    }
}

/// Base name of a source file: the part before the first dot. It names the
/// output directory and opens every chapter file's name.
pub open spec fn base_of(name: Seq<char>) -> Seq<char> {
    head_before_first(name, '.')
}

/// Extension of a source file: the part between the first dot and the next.
/// Chapter files keep it.
pub open spec fn ext_of(name: Seq<char>) -> Seq<char> {
    head_before_first(tail_after_first(name, '.'), '.')
}

/// Splits a source filename into base name and extension; a name without a
/// dot has neither.
pub fn split_base_ext(name: &str) -> (r: Option<(String, String)>)
    ensures
        r is Some <==> has_char(name@, '.'),
        match r {
            Some(parts) => parts.0@ == base_of(name@) && parts.1@ == ext_of(name@),
            None => true,
        },
{
    let len = name.unicode_len();
    match find_char(name, '.') {
        None => None,
        Some(i) => {
            let base = String::from_str(name.substring_char(0, i));
            let tail = name.substring_char(i + 1, len);
            proof {
                crate::text::lemma_head_before_first_at(name@, '.', i as int);
            }
            let ext = match find_char(tail, '.') {
                None => {
                    proof {
                        crate::text::lemma_head_before_first_absent(tail@, '.');
                    }
                    String::from_str(tail)
                },
                Some(j) => {
                    proof {
                        crate::text::lemma_head_before_first_at(tail@, '.', j as int);
                    }
                    String::from_str(tail.substring_char(0, j))
                },
            };
            Some((base, ext))
        },
    }
}

/// A source name without a dot carries no extension, so no chapter file
/// name can be formed from it.
#[derive(PartialEq, Eq, Structural, Clone, Copy, Debug)]
pub enum SplitError {
    InvalidName,
}

/// What one split invocation does.
pub enum SplitOutcome {
    /// The source file is absent: the invocation is skipped, not failed.
    SkippedMissing,
    /// The output directory to create, named by the base name, and the
    /// chapter files to write into it, in index order.
    Ready { dir: String, writes: Vec<Artifact> },
}

/// Plans one split invocation. A missing source file is reported as skipped,
/// never as an error. Otherwise the chapter segments of the source, up to
/// the ceiling, become writes of `<base><idx>.<ext>` into the directory
/// `<base>`, skipping every name already present there.
pub fn plan_split(
    source_exists: bool,
    lines: &Vec<String>,
    file_name: &str,
    delimiter: &str,
    stop: i32,
    present: &Vec<String>,
) -> (r: Result<SplitOutcome, SplitError>)
    requires
        lines.len() <= i32::MAX,
    ensures
        !source_exists ==> r == Ok::<SplitOutcome, SplitError>(SplitOutcome::SkippedMissing),
        match r {
            Ok(SplitOutcome::SkippedMissing) => !source_exists,
            Ok(SplitOutcome::Ready { dir, writes }) => {
                &&& source_exists
                &&& has_char(file_name@, '.')
                &&& dir@ == base_of(file_name@)
                &&& writes.deep_view() == write_plan(
                    segments(lines.deep_view(), delimiter@).take(
                        emitted_count(lines.deep_view(), delimiter@, stop as int),
                    ),
                    base_of(file_name@),
                    ext_of(file_name@),
                    present.deep_view(),
                )
            },
            Err(e) => source_exists && !has_char(file_name@, '.') && e == SplitError::InvalidName,
        },
{
    if !source_exists {
        return Ok(SplitOutcome::SkippedMissing);
    }
    match split_base_ext(file_name) {
        None => Err(SplitError::InvalidName),
        Some((base, ext)) => {
            let segs = split_chapters(lines, delimiter, stop);
            proof {
                lemma_segments_count(lines.deep_view(), delimiter@, Seq::<Seq<char>>::empty());
            }
            let writes = plan_writes(&segs, base.as_str(), ext.as_str(), present);
            Ok(SplitOutcome::Ready { dir: base, writes })
        },
    }
}

} // verus!
