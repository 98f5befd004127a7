//! CSV reports: one row per task with its name, folder, duration and
//! status, written under a filesystem-safe filename. The caller does the
//! actual file writing; everything here only computes names and contents.

use crate::numerals::{dec_digits, lemma_dec_digits_injective, lemma_dec_digits_shape, push_dec};
use crate::store::{effective_folder, TaskStore};
use crate::strutil::{contains_string, push_char, views};
use crate::task::{Task, TaskView};
use vstd::prelude::*;
use vstd::string::StrSliceExecFns;
use vstd::string::StringExecFns;

verus! {

/// The characters a filename may not carry.
pub open spec fn is_reserved_char(c: char) -> bool {
    ||| c == '/'
    ||| c == '\\'
    ||| c == '?'
    ||| c == '%'
    ||| c == '*'
    ||| c == ':'
    ||| c == '|'
    ||| c == '"'
    ||| c == '<'
    ||| c == '>'
    ||| c == '.'
    ||| c == ' '
}

/// One character of a sanitized name: reserved characters become `_`.
pub open spec fn sanitize_char(c: char) -> char {
    if is_reserved_char(c) {
        '_'
    } else {
        c
    }
}

/// A name mapped to a filesystem-safe token, character by character.
pub open spec fn spec_sanitize(s: Seq<char>) -> Seq<char> {
    s.map_values(|c: char| sanitize_char(c))
}

/// Replaces every reserved character with `_`; all other characters,
/// non-ASCII included, pass through unchanged.
pub fn sanitize_filename(name: &str) -> (r: String)
    ensures
        r@ == spec_sanitize(name@),
{
    let len = name.unicode_len();
    let mut out = String::new();
    let mut i: usize = 0;
    while i < len
        invariant
            0 <= i <= len,
            len == name@.len(),
            out@ == spec_sanitize(name@.subrange(0, i as int)),
        decreases len - i,
    {
        let c = name.get_char(i);
        let mapped = if c == '/' || c == '\\' || c == '?' || c == '%' || c == '*' || c == ':' || c
            == '|' || c == '"' || c == '<' || c == '>' || c == '.' || c == ' ' {
            '_'
        } else {
            c
        };
        proof {
            assert(mapped == sanitize_char(name@[i as int]));
        }
        push_char(&mut out, mapped);
        proof {
            let pre = name@.subrange(0, i as int);
            let pre1 = name@.subrange(0, i as int + 1);
            assert(spec_sanitize(pre).len() == pre.len());
            assert(spec_sanitize(pre1).len() == pre1.len());
            assert forall|m: int|
                0 <= m < pre1.len() implies #[trigger] spec_sanitize(pre1)[m] == spec_sanitize(
                pre,
            ).push(mapped)[m] by {
                if m < pre.len() {
                    assert(spec_sanitize(pre1)[m] == sanitize_char(pre1[m]));
                    assert(spec_sanitize(pre)[m] == sanitize_char(pre[m]));
                }
            }
            assert(out@ =~= spec_sanitize(pre1));
        }
        i = i + 1;
    }
    proof {
        assert(name@.subrange(0, name@.len() as int) =~= name@);
    }
    out
}

/// One data row of a report.
pub struct CsvRow {
    pub task: String,
    pub project: String,
    pub duration: String,
    pub status: String,
}

/// The mathematical value of a row.
pub ghost struct CsvRowView {
    pub task: Seq<char>,
    pub project: Seq<char>,
    pub duration: Seq<char>,
    pub status: Seq<char>,
}

impl View for CsvRow {
    type V = CsvRowView;

    open spec fn view(&self) -> CsvRowView {
        CsvRowView {
            task: self.task@,
            project: self.project@,
            duration: self.duration@,
            status: self.status@,
        }
    }
}

/// The views of a sequence of rows.
pub open spec fn row_views(s: Seq<CsvRow>) -> Seq<CsvRowView> {
    s.map_values(|r: CsvRow| r@)
}

/// What the csv crate produces for one record of these four fields: the
/// fields separated by commas, quoted where needed, ending in a newline.
pub uninterp spec fn csv_line(
    task: Seq<char>,
    project: Seq<char>,
    duration: Seq<char>,
    status: Seq<char>,
) -> Seq<char>;

/// Relies on csv's `Writer` in its default configuration (comma
/// delimiter, quotes only where required, `\n` record terminator): one
/// record encoded as one CSV line, a function of the four fields alone.
/// Writes into a vector, which cannot fail, and csv output of UTF-8
/// fields is UTF-8.
#[verifier::external_body]
fn csv_encode_record(task: &str, project: &str, duration: &str, status: &str) -> (r: String)
    ensures
        r@ == csv_line(task@, project@, duration@, status@),
{
    let mut w = csv::Writer::from_writer(Vec::new());
    w.write_record(&[task, project, duration, status]).expect("a vector write cannot fail");
    let bytes = w.into_inner().expect("flushing a vector cannot fail");
    String::from_utf8(bytes).expect("csv output of UTF-8 fields is UTF-8")
}

/// The encoded line of one row.
pub open spec fn row_line(r: CsvRowView) -> Seq<char> {
    csv_line(r.task, r.project, r.duration, r.status)
}

/// The encoded lines of a report's rows, in order.
pub open spec fn csv_of_rows(rows: Seq<CsvRowView>) -> Seq<char>
    decreases rows.len(),
{
    if rows.len() == 0 {
        Seq::empty()
    } else {
        csv_of_rows(rows.drop_last()) + row_line(rows.last())
    }
}

/// The header line every report starts with.
pub open spec fn spec_header() -> Seq<char> {
    csv_line("Task"@, "Project"@, "Duration (HH:MM:SS)"@, "Status"@)
}

/// A whole report: the header line, then one line per row.
pub open spec fn spec_report(rows: Seq<CsvRowView>) -> Seq<char> {
    spec_header() + csv_of_rows(rows)
}

/// Renders the header and the given rows as one CSV document.
pub fn render_report(rows: &Vec<CsvRow>) -> (r: String)
    ensures
        r@ == spec_report(row_views(rows@)),
{
    let mut out = csv_encode_record("Task", "Project", "Duration (HH:MM:SS)", "Status");
    let mut i: usize = 0;
    proof {
        assert(row_views(rows@).len() == rows@.len());
        assert(csv_of_rows(row_views(rows@).subrange(0, 0)) =~= Seq::<char>::empty());
        assert(out@ =~= spec_header() + csv_of_rows(row_views(rows@).subrange(0, 0)));
    }
    while i < rows.len()
        invariant
            0 <= i <= rows@.len(),
            row_views(rows@).len() == rows@.len(),
            out@ == spec_header() + csv_of_rows(row_views(rows@).subrange(0, i as int)),
        decreases rows@.len() - i,
    {
        let line = csv_encode_record(
            rows[i].task.as_str(),
            rows[i].project.as_str(),
            rows[i].duration.as_str(),
            rows[i].status.as_str(),
        );
        out.append(line.as_str());
        proof {
            let rv = row_views(rows@);
            let pre = rv.subrange(0, i as int);
            let pre1 = rv.subrange(0, i as int + 1);
            assert(pre1.drop_last() =~= pre);
            assert(rv[i as int] == rows@[i as int]@);
            assert(pre1.last() == rows@[i as int]@);
            assert(line@ == row_line(pre1.last()));
            assert(out@ =~= spec_header() + csv_of_rows(pre1));
        }
        i = i + 1;
    }
    proof {
        assert(row_views(rows@).subrange(0, rows@.len() as int) =~= row_views(rows@));
    }
    out
}

/// The report row for one task at instant `now`.
pub open spec fn row_of_task(t: TaskView, now: int) -> CsvRowView {
    CsvRowView {
        task: t.description,
        project: effective_folder(t),
        duration: crate::numerals::spec_hms(t.spec_current_duration(now)),
        status: t.spec_status_label(),
    }
}

/// The report rows for a sequence of tasks at instant `now`.
pub open spec fn rows_of(tasks: Seq<TaskView>, now: int) -> Seq<CsvRowView> {
    tasks.map_values(|t: TaskView| row_of_task(t, now))
}

/// Tasks filed under exactly the folder `name`.
pub open spec fn in_folder(name: Seq<char>) -> spec_fn(TaskView) -> bool {
    |t: TaskView| t.folder == Some(name)
}

/// The report row for one task.
fn row_for_task(t: &Task, now: i64) -> (r: CsvRow)
    requires
        t.wf(),
    ensures
        r@ == row_of_task(t@, now as int),
{
    CsvRow {
        task: t.description.clone(),
        project: TaskStore::effective_folder_string(t),
        duration: t.format_duration_at(now),
        status: t.status_label(),
    }
}

/// The rows of an export of every task: exactly one row per task, in
/// store order.
pub fn export_rows_all(store: &TaskStore, now: i64) -> (rows: Vec<CsvRow>)
    requires
        store.wf(),
    ensures
        row_views(rows@) == rows_of(store.views(), now as int),
        rows@.len() == store.views().len(),
{
    let mut rows: Vec<CsvRow> = Vec::new();
    let mut i: usize = 0;
    proof {
        assert(store.views().len() == store.tasks@.len());
        assert(row_views(rows@) =~= rows_of(store.views().subrange(0, 0), now as int));
    }
    while i < store.tasks.len()
        invariant
            store.wf(),
            0 <= i <= store.tasks@.len(),
            store.views().len() == store.tasks@.len(),
            row_views(rows@) == rows_of(store.views().subrange(0, i as int), now as int),
            rows@.len() == i,
        decreases store.tasks@.len() - i,
    {
        proof {
            assert(store.views()[i as int] == store.tasks@[i as int]@);
            assert(store.views()[i as int].wf());
        }
        let row = row_for_task(&store.tasks[i], now);
        let ghost prev = rows@;
        rows.push(row);
        proof {
            let pre = store.views().subrange(0, i as int);
            let pre1 = store.views().subrange(0, i as int + 1);
            assert(row_views(prev).len() == prev.len());
            assert(row_views(rows@).len() == prev.len() + 1);
            assert(rows_of(pre1, now as int).len() == pre1.len());
            assert forall|m: int|
                0 <= m < prev.len() + 1 implies #[trigger] row_views(rows@)[m] == rows_of(
                pre1,
                now as int,
            )[m] by {
                if m < prev.len() {
                    assert(row_views(rows@)[m] == row_views(prev)[m]);
                    assert(rows_of(pre1, now as int)[m] == row_of_task(pre1[m], now as int));
                    assert(rows_of(pre, now as int)[m] == row_of_task(pre[m], now as int));
                } else {
                    assert(rows_of(pre1, now as int)[m] == row_of_task(pre1[m], now as int));
                }
            }
            assert(row_views(rows@) =~= rows_of(pre1, now as int));
        }
        i = i + 1;
    }
    proof {
        assert(store.views().subrange(0, store.tasks@.len() as int) =~= store.views());
    }
    rows
}

/// The rows of a per-folder export: exactly one row per task whose folder
/// is `name`, in store order.
pub fn export_rows_folder(store: &TaskStore, name: &String, now: i64) -> (rows: Vec<CsvRow>)
    requires
        store.wf(),
    ensures
        row_views(rows@) == rows_of(store.views().filter(in_folder(name@)), now as int),
        rows@.len() == store.views().filter(in_folder(name@)).len(),
{
    let ghost p = in_folder(name@);
    let mut rows: Vec<CsvRow> = Vec::new();
    let mut i: usize = 0;
    proof {
        assert(store.views().len() == store.tasks@.len());
        assert(store.views().subrange(0, 0).filter(p) =~= Seq::<TaskView>::empty()) by {
            reveal(Seq::filter);
        }
        assert(row_views(rows@) =~= rows_of(store.views().subrange(0, 0).filter(p), now as int));
    }
    while i < store.tasks.len()
        invariant
            store.wf(),
            0 <= i <= store.tasks@.len(),
            store.views().len() == store.tasks@.len(),
            p == in_folder(name@),
            row_views(rows@) == rows_of(
                store.views().subrange(0, i as int).filter(p),
                now as int,
            ),
            rows@.len() == store.views().subrange(0, i as int).filter(p).len(),
        decreases store.tasks@.len() - i,
    {
        let ghost prefix = store.views().subrange(0, i as int);
        proof {
            assert(store.views()[i as int] == store.tasks@[i as int]@);
            assert(store.views()[i as int].wf());
        }
        let matches_folder = match &store.tasks[i].folder {
            Some(f) => *f == *name,
            None => false,
        };
        proof {
            assert(p(store.views()[i as int]) == matches_folder);
        }
        if matches_folder {
            let row = row_for_task(&store.tasks[i], now);
            let ghost prev = rows@;
            rows.push(row);
            proof {
                let fpre = prefix.filter(p);
                let fpre1 = fpre.push(store.views()[i as int]);
                assert(row_views(prev).len() == fpre.len());
                assert(row_views(rows@).len() == fpre.len() + 1);
                assert(rows_of(fpre1, now as int).len() == fpre1.len());
                assert forall|m: int|
                    0 <= m < fpre.len() + 1 implies #[trigger] row_views(rows@)[m] == rows_of(
                    fpre1,
                    now as int,
                )[m] by {
                    if m < fpre.len() {
                        assert(row_views(rows@)[m] == row_views(prev)[m]);
                        assert(rows_of(fpre1, now as int)[m] == row_of_task(fpre1[m], now as int));
                        assert(rows_of(fpre, now as int)[m] == row_of_task(fpre[m], now as int));
                    } else {
                        assert(rows_of(fpre1, now as int)[m] == row_of_task(fpre1[m], now as int));
                    }
                }
                assert(row_views(rows@) =~= rows_of(fpre1, now as int));
            }
        }
        proof {
            reveal(Seq::filter);
            let prefix1 = store.views().subrange(0, i as int + 1);
            assert(prefix1.drop_last() =~= prefix);
            assert(prefix1.last() == store.views()[i as int]);
            if matches_folder {
                assert(prefix1.filter(p) == prefix.filter(p).push(prefix1.last()));
            } else {
                assert(prefix1.filter(p) == prefix.filter(p));
            }
        }
        i = i + 1;
    }
    proof {
        assert(store.views().subrange(0, store.tasks@.len() as int) =~= store.views());
    }
    rows
}

/// The single row of a per-task export.
pub fn export_rows_task(t: &Task, now: i64) -> (rows: Vec<CsvRow>)
    requires
        t.wf(),
    ensures
        row_views(rows@) == seq![row_of_task(t@, now as int)],
        rows@.len() == 1,
{
    let mut rows: Vec<CsvRow> = Vec::new();
    rows.push(row_for_task(t, now));
    proof {
        assert(row_views(rows@) =~= seq![row_of_task(t@, now as int)]);
    }
    rows
}

/// The export-all report at instant `now`: the fixed filename and the
/// document with one row per task.
pub fn export_to_csv(store: &TaskStore, now: i64) -> (r: (String, String))
    requires
        store.wf(),
    ensures
        r.0@ == "work_timer_export.csv"@,
        r.1@ == spec_report(rows_of(store.views(), now as int)),
{
    let filename = "work_timer_export.csv".to_owned();
    let rows = export_rows_all(store, now);
    let content = render_report(&rows);
    (filename, content)
}

/// The per-folder report at instant `now`: a filename derived from the
/// sanitized folder name, and the document with one row per task of that
/// folder.
pub fn export_folder_to_csv(store: &TaskStore, name: &String, now: i64) -> (r: (String, String))
    requires
        store.wf(),
    ensures
        r.0@ == "folder_"@ + spec_sanitize(name@) + ".csv"@,
        r.1@ == spec_report(rows_of(store.views().filter(in_folder(name@)), now as int)),
{
    let mut filename = "folder_".to_owned();
    let sanitized = sanitize_filename(name.as_str());
    filename.append(sanitized.as_str());
    filename.append(".csv");
    let rows = export_rows_folder(store, name, now);
    let content = render_report(&rows);
    (filename, content)
}

/// The per-task report at instant `now`: a fresh filename derived from the
/// sanitized description, avoiding the names already taken, and the
/// document with that task's single row.
pub fn export_task_to_csv(t: &Task, existing: &Vec<String>, now: i64) -> (r: (String, String))
    requires
        t.wf(),
    ensures
        !views(existing@).contains(r.0@),
        first_free_candidate(spec_sanitize(t.description@), views(existing@), r.0@),
        r.1@ == spec_report(seq![row_of_task(t@, now as int)]),
{
    let filename = get_unique_filename(t.description.as_str(), existing);
    let rows = export_rows_task(t, now);
    let content = render_report(&rows);
    (filename, content)
}

/// The name of the per-task export for `base`: the sanitized name itself,
/// or with `_1`, `_2`, … appended when earlier names are taken.
pub open spec fn candidate_name(base: Seq<char>, k: nat) -> Seq<char> {
    if k == 0 {
        base + ".csv"@
    } else {
        base + "_"@ + dec_digits(k) + ".csv"@
    }
}

/// Whether `r` is the first free candidate name over `base`, every
/// earlier candidate being taken.
pub open spec fn first_free_candidate(
    base: Seq<char>,
    existing: Seq<Seq<char>>,
    r: Seq<char>,
) -> bool {
    exists|k: nat|
        r == candidate_name(base, k) && !existing.contains(r) && (forall|j: nat|
            j < k ==> existing.contains(#[trigger] candidate_name(base, j)))
}

/// Distinct counters give distinct candidate names.
proof fn lemma_candidate_injective(base: Seq<char>, a: nat, b: nat)
    requires
        candidate_name(base, a) == candidate_name(base, b),
    ensures
        a == b,
{
    reveal_strlit(".csv");
    reveal_strlit("_");
    lemma_dec_digits_shape(a);
    lemma_dec_digits_shape(b);
    assert(".csv"@.len() == 4);
    assert("_"@.len() == 1);
    if a == 0 && b != 0 {
        assert(candidate_name(base, a).len() == base.len() + 4);
        assert(candidate_name(base, b).len() == base.len() + 5 + dec_digits(b).len());
    } else if a != 0 && b == 0 {
        assert(candidate_name(base, a).len() == base.len() + 5 + dec_digits(a).len());
        assert(candidate_name(base, b).len() == base.len() + 4);
    } else if a != 0 && b != 0 {
        let ca = candidate_name(base, a);
        let cb = candidate_name(base, b);
        let da = dec_digits(a);
        let db = dec_digits(b);
        assert(ca.len() == base.len() + 5 + da.len());
        assert(cb.len() == base.len() + 5 + db.len());
        assert(da.len() == db.len());
        assert forall|m: int| 0 <= m < da.len() implies da[m] == db[m] by {
            assert(ca[base.len() + 1 + m] == da[m]);
            assert(cb[base.len() + 1 + m] == db[m]);
        }
        assert(da =~= db);
        lemma_dec_digits_injective(a, b);
    }
}

/// The first filename over the sanitized `base` that is not already among
/// `existing`: `<base>.csv`, or `<base>_<n>.csv` for the first free `n`.
pub fn get_unique_filename(base: &str, existing: &Vec<String>) -> (r: String)
    ensures
        !views(existing@).contains(r@),
        first_free_candidate(spec_sanitize(base@), views(existing@), r@),
{
    let sanitized = sanitize_filename(base);
    let ghost sbase = spec_sanitize(base@);
    let ghost exv = views(existing@);
    let ghost exset = exv.to_set();
    proof {
        broadcast use vstd::seq_lib::seq_to_set_is_finite;

        exv.lemma_cardinality_of_set();
        vstd::std_specs::vec::axiom_spec_len(existing);
        assert(exv.len() == existing@.len());
    }
    let mut k: u64 = 0;
    let ghost cands: Seq<Seq<char>> = Seq::empty();
    loop
        invariant
            sanitized@ == sbase,
            sbase == spec_sanitize(base@),
            exv == views(existing@),
            exset == exv.to_set(),
            exset.finite(),
            exset.len() <= exv.len(),
            exv.len() == existing@.len(),
            existing@.len() <= usize::MAX,
            cands.len() == k,
            k <= exv.len(),
            forall|j: int| 0 <= j < k ==> cands[j] == candidate_name(sbase, j as nat),
            forall|j: int| 0 <= j < k ==> exv.contains(#[trigger] cands[j]),
            cands.no_duplicates(),
        decreases exv.len() + 1 - k,
    {
        // build the candidate for this counter
        let mut filename = sanitized.clone();
        if k > 0 {
            push_char(&mut filename, '_');
            push_dec(&mut filename, k);
        }
        filename.append(".csv");
        proof {
            if k == 0 {
                assert(filename@ =~= candidate_name(sbase, k as nat));
            } else {
                assert(filename@ =~= sbase + "_"@ + dec_digits(k as nat) + ".csv"@) by {
                    reveal_strlit("_");
                    assert(sbase.push('_') =~= sbase + "_"@);
                }
                assert(filename@ =~= candidate_name(sbase, k as nat));
            }
        }
        if !contains_string(existing, &filename) {
            proof {
                let kk = k as nat;
                assert(filename@ == candidate_name(sbase, kk) && !exv.contains(filename@) && (
                forall|j: nat| j < kk ==> exv.contains(#[trigger] candidate_name(sbase, j)))) by {
                    assert forall|j: nat| j < kk implies exv.contains(
                        #[trigger] candidate_name(sbase, j),
                    ) by {
                        assert(cands[j as int] == candidate_name(sbase, j));
                        assert(exv.contains(cands[j as int]));
                    }
                }
                assert(first_free_candidate(sbase, exv, filename@));
            }
            return filename;
        }
        // the candidate is taken: one more distinct name is known to be in
        // the list, so the counter cannot pass the list's length
        proof {
            assert forall|j: int| 0 <= j < cands.len() implies cands[j] != filename@ by {
                if cands[j] == filename@ {
                    lemma_candidate_injective(sbase, j as nat, k as nat);
                }
            }
            let cands1 = cands.push(filename@);
            assert forall|a: int, b: int|
                0 <= a < b < cands1.len() implies cands1[a] != cands1[b] by {
                if b < cands1.len() - 1 {
                    assert(cands[a] != cands[b]);
                } else {
                    assert(cands1[a] == cands[a]);
                }
            }
            cands = cands1;
            cands.unique_seq_to_set();
            assert(cands.to_set().subset_of(exset)) by {
                assert forall|x: Seq<char>| cands.to_set().contains(x) implies exset.contains(
                    x,
                ) by {
                    assert(cands.contains(x));
                    let j = choose|j: int| 0 <= j < cands.len() && cands[j] == x;
                    assert(exv.contains(x));
                    let m = choose|m: int| 0 <= m < exv.len() && exv[m] == x;
                    assert(exv.to_set().contains(x));
                }
            }
            vstd::set_lib::lemma_len_subset(cands.to_set(), exset);
            assert(k + 1 <= exv.len());
        }
        k = k + 1;
    }
}

} // verus!
