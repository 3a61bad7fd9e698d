//! The compatibility table of one subject: a row for each service, a column
//! for each version, and in each cell whether the service declares the
//! version.

use crate::text::{contains_text, distinct, lemma_distinct, texts};
use crate::versions::{
    lemma_sorted_permutes, lemma_sorted_throughout, orders, precedes, reads, related, sort_versions, sorted_by,
    SortOrder,
};
use vstd::prelude::*;

verus! {

/// One finding: a service declares a version of a subject, or (with no
/// version) the service names the subject and no version was found for it.
#[derive(PartialEq, Eq, Debug, Clone)]
pub struct CompatibilityRow {
    pub service_name: String,
    pub compatibility_subject: String,
    pub version: Option<String>,
}

/// What a `CompatibilityRow` holds.
pub ghost struct Finding {
    pub service: Seq<char>,
    pub subject: Seq<char>,
    pub version: Option<Seq<char>>,
}

impl View for CompatibilityRow {
    type V = Finding;

    open spec fn view(&self) -> Finding {
        Finding {
            service: self.service_name@,
            subject: self.compatibility_subject@,
            version: match self.version {
                Some(version) => Some(version@),
                None => None,
            },
        }
    }
}

/// What a list of rows holds.
pub open spec fn findings(rows: Seq<CompatibilityRow>) -> Seq<Finding> {
    rows.map_values(|row: CompatibilityRow| row@)
}

/// What a table holds: the texts of its cells, row by row.
pub open spec fn cells(table: Seq<Vec<String>>) -> Seq<Seq<Seq<char>>> {
    table.map_values(|row: Vec<String>| texts(row@))
}

/// The versions found for `subject`, in the order of the rows; a version
/// stands as often as it was found.
pub open spec fn subject_versions(rows: Seq<Finding>, subject: Seq<char>) -> Seq<Seq<char>>
    decreases rows.len(),
{
    if rows.len() == 0 {
        Seq::<Seq<char>>::empty()
    } else {
        let init = subject_versions(rows.drop_last(), subject);
        match rows.last().version {
            Some(version) => if rows.last().subject == subject {
                init.push(version)
            } else {
                init
            },
            None => init,
        }
    }
}

/// The services that name `subject`, in the order of the rows; a service
/// stands once for each of its rows, with or without a version.
pub open spec fn subject_services(rows: Seq<Finding>, subject: Seq<char>) -> Seq<Seq<char>>
    decreases rows.len(),
{
    if rows.len() == 0 {
        Seq::<Seq<char>>::empty()
    } else {
        let init = subject_services(rows.drop_last(), subject);
        if rows.last().subject == subject {
            init.push(rows.last().service)
        } else {
            init
        }
    }
}

/// The columns of the table: the distinct versions found for `subject`, in
/// ascending order; versions that do not stand before one another keep the
/// order in which they were first found, and those that cannot be read as
/// versions come last.
pub open spec fn columns(rows: Seq<Finding>, subject: Seq<char>) -> Seq<Seq<char>> {
    sorted_by(distinct(subject_versions(rows, subject)), SortOrder::Ascending)
}

/// The services of the table: the distinct services that name `subject`, in
/// the order in which they were first found.
pub open spec fn services(rows: Seq<Finding>, subject: Seq<char>) -> Seq<Seq<char>> {
    distinct(subject_services(rows, subject))
}

/// Whether some row says that `service` declares `version` of `subject`.
pub open spec fn declares(rows: Seq<Finding>, subject: Seq<char>, service: Seq<char>, version: Seq<char>) -> bool {
    exists|i: int|
        0 <= i < rows.len() && (#[trigger] rows[i]).subject == subject && rows[i].service == service
            && rows[i].version == Some(version)
}

/// The versions found for `subject`, as a set.
pub open spec fn observed_versions(rows: Seq<Finding>, subject: Seq<char>) -> Set<Seq<char>> {
    Set::new(
        |version: Seq<char>|
            exists|i: int|
                0 <= i < rows.len() && (#[trigger] rows[i]).subject == subject && rows[i].version == Some(
                    version,
                ),
    )
}

/// How a cell shows its truth value.
pub open spec fn bool_text(b: bool) -> Seq<char> {
    if b {
        "true"@
    } else {
        "false"@
    }
}

/// The first row of the table: the subject, then the columns.
pub open spec fn header_row(rows: Seq<Finding>, subject: Seq<char>) -> Seq<Seq<char>> {
    seq![subject] + columns(rows, subject)
}

/// The row of one service: its name, then for each column whether the
/// service declares that version.
pub open spec fn service_row(rows: Seq<Finding>, subject: Seq<char>, service: Seq<char>) -> Seq<Seq<char>> {
    seq![service] + columns(rows, subject).map_values(
        |version: Seq<char>| bool_text(declares(rows, subject, service, version)),
    )
}

/// The table of `subject`: the header, then one row for each service.
pub open spec fn table_of(rows: Seq<Finding>, subject: Seq<char>) -> Seq<Seq<Seq<char>>> {
    seq![header_row(rows, subject)] + services(rows, subject).map_values(
        |service: Seq<char>| service_row(rows, subject, service),
    )
}

/// The versions listed for `subject` are those that some row holds for it.
pub proof fn lemma_subject_versions(rows: Seq<Finding>, subject: Seq<char>)
    ensures
        subject_versions(rows, subject).to_set() == observed_versions(rows, subject),
    decreases rows.len(),
{
    let listed = subject_versions(rows, subject);
    if rows.len() > 0 {
        let front = rows.drop_last();
        let init = subject_versions(front, subject);
        lemma_subject_versions(front, subject);
        assert forall|version: Seq<char>|
            listed.to_set().contains(version) <==> observed_versions(rows, subject).contains(version) by {
            if listed.contains(version) {
                let k = choose|k: int| 0 <= k < listed.len() && listed[k] == version;
                if k < init.len() {
                    assert(init[k] == version);
                    assert(init.to_set().contains(version));
                    let i = choose|i: int|
                        0 <= i < front.len() && (#[trigger] front[i]).subject == subject && front[i].version
                            == Some(version);
                    assert(rows[i] == front[i]);
                } else {
                    assert(rows[rows.len() - 1].version == Some(version));
                }
            }
            if observed_versions(rows, subject).contains(version) {
                let i = choose|i: int|
                    0 <= i < rows.len() && (#[trigger] rows[i]).subject == subject && rows[i].version == Some(
                        version,
                    );
                if i < front.len() {
                    assert(front[i] == rows[i]);
                    assert(observed_versions(front, subject).contains(version));
                    assert(init.to_set().contains(version));
                    let k = choose|k: int| 0 <= k < init.len() && init[k] == version;
                    assert(listed[k] == version);
                } else {
                    assert(listed[listed.len() - 1] == version);
                }
            }
        }
        assert(listed.to_set() =~= observed_versions(rows, subject));
    } else {
        assert(listed.to_set() =~= observed_versions(rows, subject));
    }
}

/// The shape of the table: it has one row more than there are services;
/// the header holds one cell more than there are distinct versions found
/// for the subject; and every row is as long as the header.
pub proof fn lemma_table_shape(rows: Seq<Finding>, subject: Seq<char>)
    ensures
        table_of(rows, subject).len() == 1 + services(rows, subject).len(),
        table_of(rows, subject)[0] == header_row(rows, subject),
        header_row(rows, subject).len() == 1 + observed_versions(rows, subject).len(),
        forall|i: int|
            0 <= i < table_of(rows, subject).len() ==> (#[trigger] table_of(rows, subject)[i]).len()
                == header_row(rows, subject).len(),
{
    let listed = subject_versions(rows, subject);
    lemma_subject_versions(rows, subject);
    lemma_distinct(listed);
    distinct(listed).unique_seq_to_set();
    assert(distinct(listed).to_set() =~= listed.to_set());
    lemma_sorted_permutes(distinct(listed), SortOrder::Ascending);
}

/// Whether some row names `service` for `subject`, with or without a
/// version.
pub open spec fn names_subject(rows: Seq<Finding>, subject: Seq<char>, service: Seq<char>) -> bool {
    exists|i: int| 0 <= i < rows.len() && (#[trigger] rows[i]).subject == subject && rows[i].service == service
}

/// The services listed for `subject` are those that some row names for it.
pub proof fn lemma_subject_services(rows: Seq<Finding>, subject: Seq<char>)
    ensures
        forall|service: Seq<char>|
            subject_services(rows, subject).contains(service) <==> names_subject(rows, subject, service),
    decreases rows.len(),
{
    let listed = subject_services(rows, subject);
    if rows.len() > 0 {
        let front = rows.drop_last();
        let init = subject_services(front, subject);
        lemma_subject_services(front, subject);
        assert forall|service: Seq<char>|
            listed.contains(service) <==> names_subject(rows, subject, service) by {
            if listed.contains(service) {
                let k = choose|k: int| 0 <= k < listed.len() && listed[k] == service;
                if k < init.len() {
                    assert(init[k] == service);
                    assert(init.contains(service));
                    assert(names_subject(front, subject, service));
                    let i = choose|i: int|
                        0 <= i < front.len() && (#[trigger] front[i]).subject == subject && front[i].service
                            == service;
                    assert(rows[i] == front[i]);
                } else {
                    assert(rows[rows.len() - 1].service == service);
                }
            }
            if names_subject(rows, subject, service) {
                let i = choose|i: int|
                    0 <= i < rows.len() && (#[trigger] rows[i]).subject == subject && rows[i].service == service;
                if i < front.len() {
                    assert(front[i] == rows[i]);
                    assert(names_subject(front, subject, service));
                    assert(init.contains(service));
                    let k = choose|k: int| 0 <= k < init.len() && init[k] == service;
                    assert(listed[k] == service);
                } else {
                    assert(listed[listed.len() - 1] == service);
                }
            }
        }
    }
}

/// What the table holds: a column for every version found for the subject,
/// for no other, and for none twice; a row for every service that names the
/// subject, for no other, and for none twice.
pub proof fn lemma_table_contents(rows: Seq<Finding>, subject: Seq<char>)
    ensures
        columns(rows, subject).no_duplicates(),
        columns(rows, subject).to_set() == observed_versions(rows, subject),
        services(rows, subject).no_duplicates(),
        forall|service: Seq<char>|
            services(rows, subject).contains(service) <==> names_subject(rows, subject, service),
{
    broadcast use vstd::seq_lib::to_multiset_contains;

    let listed = subject_versions(rows, subject);
    let unique = distinct(listed);
    let cols = columns(rows, subject);
    lemma_subject_versions(rows, subject);
    lemma_subject_services(rows, subject);
    lemma_distinct(listed);
    lemma_distinct(subject_services(rows, subject));
    lemma_sorted_permutes(unique, SortOrder::Ascending);
    unique.lemma_multiset_has_no_duplicates();
    cols.lemma_multiset_has_no_duplicates_conv();
    assert forall|version: Seq<char>| cols.to_set().contains(version) <==> listed.to_set().contains(version) by {
        assert(cols.contains(version) <==> cols.to_multiset().count(version) > 0);
        assert(unique.contains(version) <==> unique.to_multiset().count(version) > 0);
    }
    assert(cols.to_set() =~= listed.to_set());
}

/// Where ascending order orders the versions found for the subject, the
/// columns ascend throughout: versions that the order cannot read come
/// last, and of those that it can read each may stand before all behind it.
pub proof fn lemma_columns_ascend(rows: Seq<Finding>, subject: Seq<char>)
    requires
        orders(subject_versions(rows, subject), SortOrder::Ascending),
    ensures
        forall|i: int, j: int|
            0 <= i <= j < columns(rows, subject).len() && reads(
                #[trigger] columns(rows, subject)[j],
                SortOrder::Ascending,
            ) ==> reads(#[trigger] columns(rows, subject)[i], SortOrder::Ascending) && related(
                columns(rows, subject)[i],
                columns(rows, subject)[j],
                SortOrder::Ascending,
            ),
{
    let listed = subject_versions(rows, subject);
    let unique = distinct(listed);
    lemma_distinct(listed);
    assert forall|a: Seq<char>, b: Seq<char>|
        #![trigger unique.contains(a), unique.contains(b)]
        unique.contains(a) && unique.contains(b) && reads(a, SortOrder::Ascending) && reads(
            b,
            SortOrder::Ascending,
        ) implies related(a, b, SortOrder::Ascending) || related(b, a, SortOrder::Ascending) by {
        assert(listed.contains(a) && listed.contains(b));
    }
    assert forall|a: Seq<char>, b: Seq<char>, c: Seq<char>|
        #![trigger unique.contains(a), unique.contains(b), unique.contains(c)]
        unique.contains(a) && unique.contains(b) && unique.contains(c) && reads(a, SortOrder::Ascending) && reads(
            b,
            SortOrder::Ascending,
        ) && reads(c, SortOrder::Ascending) && related(a, b, SortOrder::Ascending) && related(
            b,
            c,
            SortOrder::Ascending,
        ) implies related(a, c, SortOrder::Ascending) by {
        assert(listed.contains(a) && listed.contains(b) && listed.contains(c));
    }
    assert forall|a: Seq<char>, b: Seq<char>|
        #![trigger unique.contains(a), unique.contains(b)]
        unique.contains(a) && unique.contains(b) && reads(a, SortOrder::Ascending) && !reads(
            b,
            SortOrder::Ascending,
        ) implies precedes(a, b, SortOrder::Ascending) by {
        assert(listed.contains(a) && listed.contains(b));
    }
    lemma_sorted_throughout(unique, SortOrder::Ascending);
}

/// Whether some row says that `service` declares `version` of `subject`.
pub fn is_declared(rows: &[CompatibilityRow], subject: &str, service: &str, version: &str) -> (r: bool)
    ensures
        r == declares(findings(rows@), subject@, service@, version@),
{
    let mut i: usize = 0;
    while i < rows.len()
        invariant
            i <= rows@.len(),
            forall|j: int|
                0 <= j < i ==> !((#[trigger] findings(rows@)[j]).subject == subject@ && findings(rows@)[j].service
                    == service@ && findings(rows@)[j].version == Some(version@)),
        decreases rows@.len() - i,
    {
        let row = &rows[i];
        if row.compatibility_subject.as_str().eq(subject) && row.service_name.as_str().eq(service) {
            if let Some(found) = &row.version {
                if found.as_str().eq(version) {
                    assert(findings(rows@)[i as int].version == Some(version@));
                    return true;
                }
            }
        }
        i += 1;
    }
    false
}

/// The services and the versions of the table of `subject`: the services
/// in the order in which the rows first name them, the versions in
/// ascending order.
pub fn get_table_rows_and_column_by_subject(subject: &str, rows: &[CompatibilityRow]) -> (r: (
    Vec<String>,
    Vec<String>,
))
    ensures
        texts(r.0@) == services(findings(rows@), subject@),
        texts(r.1@) == columns(findings(rows@), subject@),
{
    let mut versions: Vec<String> = Vec::new();
    let mut services_names: Vec<String> = Vec::new();
    let mut i: usize = 0;
    while i < rows.len()
        invariant
            i <= rows@.len(),
            texts(versions@) == distinct(subject_versions(findings(rows@).take(i as int), subject@)),
            texts(services_names@) == distinct(subject_services(findings(rows@).take(i as int), subject@)),
        decreases rows@.len() - i,
    {
        let row = &rows[i];
        proof {
            let longer = findings(rows@).take(i + 1);
            assert(longer.drop_last() =~= findings(rows@).take(i as int));
            assert(longer.last() == row@);
            let listed = subject_versions(longer, subject@);
            let named = subject_services(longer, subject@);
            if row@.subject == subject@ {
                assert(named.drop_last() =~= subject_services(longer.drop_last(), subject@));
                if row@.version is Some {
                    assert(listed.drop_last() =~= subject_versions(longer.drop_last(), subject@));
                }
            }
        }
        if row.compatibility_subject.as_str().eq(subject) {
            if let Some(version) = &row.version {
                if !contains_text(&versions, version.as_str()) {
                    let ghost held = texts(versions@);
                    versions.push(version.clone());
                    assert(texts(versions@) =~= held.push(version@));
                }
            }
            if !contains_text(&services_names, row.service_name.as_str()) {
                let ghost held = texts(services_names@);
                services_names.push(row.service_name.clone());
                assert(texts(services_names@) =~= held.push(row.service_name@));
            }
        }
        i += 1;
    }
    assert(findings(rows@).take(i as int) =~= findings(rows@));
    let versions = sort_versions(&versions, SortOrder::Ascending);
    (services_names, versions)
}

/// The compatibility table of `subject`.
///
/// The first row holds the subject and then the versions found for it, each
/// once, in ascending order. Each further row holds a service that names
/// the subject and then, for each version, `true` or `false`: whether some
/// row says that the service declares that version. The services stand in
/// the order in which the rows first name them; a service whose rows hold
/// no version has a row of `false`.
pub fn get_table_by_subject(subject: &str, rows: &[CompatibilityRow]) -> (table: Vec<Vec<String>>)
    ensures
        cells(table@) == table_of(findings(rows@), subject@),
        table@.len() == 1 + services(findings(rows@), subject@).len(),
        table@[0]@.len() == 1 + observed_versions(findings(rows@), subject@).len(),
        forall|i: int| 0 <= i < table@.len() ==> (#[trigger] table@[i])@.len() == table@[0]@.len(),
{
    let (table_rows, table_cols) = get_table_rows_and_column_by_subject(subject, rows);
    let ghost found = findings(rows@);
    let ghost cols = columns(found, subject@);
    let mut table: Vec<Vec<String>> = Vec::new();
    let mut first_row: Vec<String> = Vec::new();
    first_row.push(subject.to_owned());
    let mut c: usize = 0;
    while c < table_cols.len()
        invariant
            c <= table_cols@.len(),
            texts(table_cols@) == cols,
            texts(first_row@) == seq![subject@] + cols.take(c as int),
        decreases table_cols@.len() - c,
    {
        let ghost held = texts(first_row@);
        first_row.push(table_cols[c].clone());
        proof {
            assert(texts(first_row@) =~= held.push(table_cols@[c as int]@));
            assert(cols[c as int] == table_cols@[c as int]@);
            assert(seq![subject@] + cols.take(c + 1) =~= (seq![subject@] + cols.take(c as int)).push(cols[c as int]));
        }
        c += 1;
    }
    proof {
        assert(cols.take(c as int) =~= cols);
    }
    table.push(first_row);
    proof {
        assert(cells(table@) =~= seq![header_row(found, subject@)]);
    }
    let mut s: usize = 0;
    while s < table_rows.len()
        invariant
            s <= table_rows@.len(),
            found == findings(rows@),
            cols == columns(found, subject@),
            texts(table_cols@) == cols,
            texts(table_rows@) == services(found, subject@),
            cells(table@) == seq![header_row(found, subject@)] + services(found, subject@).take(s as int).map_values(
                |service: Seq<char>| service_row(found, subject@, service),
            ),
        decreases table_rows@.len() - s,
    {
        let service_name = &table_rows[s];
        let mut versions_for_service: Vec<String> = Vec::new();
        versions_for_service.push(service_name.clone());
        let ghost marks = cols.map_values(
            |version: Seq<char>| bool_text(declares(found, subject@, service_name@, version)),
        );
        let mut c: usize = 0;
        while c < table_cols.len()
            invariant
                c <= table_cols@.len(),
                found == findings(rows@),
                texts(table_cols@) == cols,
                marks == cols.map_values(
                    |version: Seq<char>| bool_text(declares(found, subject@, service_name@, version)),
                ),
                texts(versions_for_service@) == seq![service_name@] + marks.take(c as int),
            decreases table_cols@.len() - c,
        {
            let declared = is_declared(rows, subject, service_name.as_str(), table_cols[c].as_str());
            let mark = if declared {
                "true".to_owned()
            } else {
                "false".to_owned()
            };
            let ghost held = texts(versions_for_service@);
            versions_for_service.push(mark);
            proof {
                assert(cols[c as int] == table_cols@[c as int]@);
                assert(texts(versions_for_service@) =~= held.push(marks[c as int]));
                assert(seq![service_name@] + marks.take(c + 1) =~= (seq![service_name@] + marks.take(c as int)).push(
                    marks[c as int],
                ));
            }
            c += 1;
        }
        let ghost held = cells(table@);
        proof {
            assert(marks.take(c as int) =~= marks);
            assert(texts(table_rows@)[s as int] == service_name@);
        }
        table.push(versions_for_service);
        proof {
            let named = services(found, subject@);
            assert(cells(table@) =~= held.push(service_row(found, subject@, service_name@)));
            assert(named.take(s + 1).map_values(|service: Seq<char>| service_row(found, subject@, service))
                =~= named.take(s as int).map_values(
                |service: Seq<char>| service_row(found, subject@, service),
            ).push(service_row(found, subject@, named[s as int])));
        }
        s += 1;
    }
    proof {
        let named = services(found, subject@);
        assert(named.take(s as int) =~= named);
        lemma_table_shape(found, subject@);
        assert forall|i: int| 0 <= i < table@.len() implies (#[trigger] table@[i])@.len() == table@[0]@.len() by {
            assert(cells(table@)[i] == texts(table@[i]@));
            assert(cells(table@)[0] == texts(table@[0]@));
        }
        assert(cells(table@)[0] == texts(table@[0]@));
    }
    table
}

/// The cells of one row, each behind a `<td>`.
pub open spec fn row_markup(row: Seq<Seq<char>>) -> Seq<char>
    decreases row.len(),
{
    if row.len() == 0 {
        Seq::<char>::empty()
    } else {
        row_markup(row.drop_last()) + "<td>"@ + row.last()
    }
}

/// The rows of a table, each behind a `<tr>`.
pub open spec fn rows_markup(table: Seq<Seq<Seq<char>>>) -> Seq<char>
    decreases table.len(),
{
    if table.len() == 0 {
        Seq::<char>::empty()
    } else {
        rows_markup(table.drop_last()) + "<tr>"@ + row_markup(table.last())
    }
}

/// A table as text: its rows between `<table>` and `</table>`.
pub open spec fn markup(table: Seq<Seq<Seq<char>>>) -> Seq<char> {
    "<table>"@ + rows_markup(table) + "</table>"@
}

/// `markdown_table::MarkdownTable::new` followed by `as_markdown`, on a
/// table without headings: an error, here `None`, for a table with no row;
/// else `<table>`, then for each row `<tr>` and for each of its cells
/// `<td>` and the cell's text, then `</table>`.
#[verifier::external_body]
fn render(table: Vec<Vec<String>>) -> (r: Option<String>)
    ensures
        r is None <==> table@.len() == 0,
        r matches Some(text) ==> text@ == markup(cells(table@)),
{
    markdown_table::MarkdownTable::new(table).as_markdown().ok()
}

/// The table as text. A table has at least its header row.
pub fn as_markdown(table: Vec<Vec<String>>) -> (text: String)
    requires
        table@.len() > 0,
    ensures
        text@ == markup(cells(table@)),
{
    match render(table) {
        Some(text) => text,
        None => String::new(),
    }
}

} // verus!
