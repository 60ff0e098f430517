//! Reading the output of `docker stats --no-stream --format
//! "{{.Name}}\t{{.CPUPerc}}"`.
use vstd::prelude::*;
use crate::items::DockerSvc;
use crate::text::{
    chars_of, find_char, first_index_of, lines, lossy_text, slice_chars, split_lines, string_of,
    texts, trim, trim_chars, utf8_lossy,
};

verus! {

/// The name and CPU figure that one line of output gives: the text before
/// the first tab and the text after it, each trimmed; nothing for a line
/// without a tab or with an empty name.
pub open spec fn docker_line(l: Seq<char>) -> Option<(Seq<char>, Seq<char>)> {
    match first_index_of(l, '\t') {
        Some(i) => {
            let name = trim(l.take(i));
            let cpu = trim(l.skip(i + 1));
            if name.len() == 0 {
                None
            } else {
                Some((name, cpu))
            }
        },
        None => None,
    }
}

/// The rows that the output `out` lists, one per line that gives one.
pub open spec fn docker_rows(out: Seq<char>) -> Seq<(Seq<char>, Seq<char>)> {
    lines(out).filter_map(|l: Seq<char>| docker_line(l))
}

/// The name and CPU figure of each service.
pub open spec fn service_cells(v: Seq<DockerSvc>) -> Seq<(Seq<char>, Seq<char>)> {
    v.map_values(|d: DockerSvc| (d.name@, d.cpu@))
}

/// The row that one line gives (see [`docker_line`]).
fn parse_docker_line(l: &Vec<char>) -> (r: Option<DockerSvc>)
    ensures
        match r {
            Some(d) => docker_line(l@) == Some((d.name@, d.cpu@)),
            None => docker_line(l@) is None,
        },
{
    match find_char(l, '\t') {
        Some(i) => {
            assert(crate::text::is_first_char(l@, '\t', i as int));
            assert(i < l.len());
            let name = trim_chars(&slice_chars(l, 0, i));
            let cpu = trim_chars(&slice_chars(l, i + 1, l.len()));
            assert(l@.subrange(0, i as int) == l@.take(i as int));
            assert(l@.subrange(i + 1, l@.len() as int) == l@.skip(i + 1));
            if name.len() == 0 {
                None
            } else {
                Some(DockerSvc { name: string_of(&name), cpu: string_of(&cpu) })
            }
        },
        None => None,
    }
}

/// The running containers listed in the text `out` (see [`docker_rows`]).
pub fn parse_docker_stats(out: &str) -> (r: Vec<DockerSvc>)
    ensures
        service_cells(r@) == docker_rows(out@),
{
    let ls = split_lines(&chars_of(out));
    let ghost ts = texts(ls@);
    let ghost f = |l: Seq<char>| docker_line(l);
    let mut rows: Vec<DockerSvc> = Vec::new();
    let n = ls.len();
    assert(ts.take(0) == Seq::<Seq<char>>::empty());
    for i in 0..n
        invariant
            n == ls@.len(),
            ts == texts(ls@),
            f == (|l: Seq<char>| docker_line(l)),
            service_cells(rows@) == ts.take(i as int).filter_map(f),
    {
        proof {
            ts.lemma_filter_map_take_succ(f, i as int);
        }
        let ghost before = rows@;
        match parse_docker_line(&ls[i]) {
            Some(d) => {
                rows.push(d);
                assert(service_cells(rows@) == service_cells(before).push((d.name@, d.cpu@)));
            },
            None => {},
        }
    }
    assert(ts.take(n as int) == ts);
    rows
}

/// The services that a run of `docker stats` reports: none when the run
/// failed, else the rows of its standard output read as UTF-8 (invalid
/// bytes replaced).
pub fn docker_services(success: bool, stdout: &[u8]) -> (r: Vec<DockerSvc>)
    ensures
        !success ==> r@.len() == 0,
        success ==> service_cells(r@) == docker_rows(lossy_text(stdout@)),
{
    if !success {
        return Vec::new();
    }
    let text = utf8_lossy(stdout);
    parse_docker_stats(text.as_str())
}

/// Every line with a tab and a name keeps its row, whatever its CPU text:
/// the row is the trimmed text before the first tab and the trimmed text
/// after it. A line whose name is blank gives no row.
pub proof fn law_docker_line_with_tab(l: Seq<char>, i: int)
    requires
        crate::text::is_first_char(l, '\t', i),
    ensures
        trim(l.take(i)).len() > 0 ==> docker_line(l) == Some((trim(l.take(i)), trim(l.skip(i + 1)))),
        trim(l.take(i)).len() == 0 ==> docker_line(l) is None,
{
    crate::text::lemma_first_char_unique(l, '\t', i);
}

/// A line without a tab gives no row.
pub proof fn law_docker_line_without_tab(l: Seq<char>)
    requires
        forall|j: int| 0 <= j < l.len() ==> #[trigger] l[j] != '\t',
    ensures
        docker_line(l) is None,
{
    crate::text::lemma_first_char_none(l, '\t');
}

/// The rows of an output are the rows of its lines in order: a line that
/// gives a row adds exactly that row after the rows of the lines before it,
/// and a line that gives none adds nothing.
pub proof fn law_docker_rows_line_by_line(out: Seq<char>, k: int)
    requires
        0 <= k < lines(out).len(),
    ensures
        lines(out).take(k + 1).filter_map(|l: Seq<char>| docker_line(l)) == lines(out).take(
            k,
        ).filter_map(|l: Seq<char>| docker_line(l)) + match docker_line(lines(out)[k]) {
            Some(row) => seq![row],
            None => Seq::empty(),
        },
{
    lines(out).lemma_filter_map_take_succ(|l: Seq<char>| docker_line(l), k);
}

} // verus!
