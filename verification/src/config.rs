//! The configuration of a run: the services and, for each, where its
//! pipeline declares the versions of each subject.

use crate::document::{parse_document, yaml_document, Node};
use crate::gitlab_ci::{
    get_included_matrix, matrix_in_text, matrix_plan_of_text, outcome, plan_matrix, Fetch, FetchRequest,
    MatrixError, MatrixFailure, MatrixPlan, MatrixStep,
};
use crate::table_builder::{findings, CompatibilityRow, Finding};
use crate::text::{distinct, texts};
use crate::versions::{get_major_versions, major_versions};
use vstd::prelude::*;

verus! {

/// Where a service's pipeline declares the versions of one subject.
#[derive(Debug, PartialEq, Eq)]
pub struct MatrixItem {
    /// The path to the list of versions.
    pub path: String,
    /// The subject.
    pub name: String,
    /// Set where the list stands in another document: the position, in the
    /// pipeline's list of included documents, of the entry that names it.
    pub include_index: Option<usize>,
}

/// The project that holds a service's pipeline.
#[derive(Debug, PartialEq, Eq)]
pub struct GitlabCi {
    project_id: String,
}

impl GitlabCi {
    /// The project's identifier.
    pub closed spec fn id(&self) -> Seq<char> {
        self.project_id@
    }

    /// The project with the identifier `project_id`.
    pub fn new(project_id: String) -> (ci: GitlabCi)
        ensures
            ci.id() == project_id@,
    {
        GitlabCi { project_id }
    }

    /// The project's identifier.
    pub fn project_id(&self) -> (id: &str)
        ensures
            id@ == self.id(),
    {
        self.project_id.as_str()
    }
}

/// A service: its name, the project of its pipeline, and where the
/// pipeline declares the versions of each subject.
#[derive(Debug, PartialEq, Eq)]
pub struct Service {
    pub name: String,
    pub ci: GitlabCi,
    pub matrix: Vec<MatrixItem>,
}

/// The host of the API and the services to report on.
#[derive(Debug, PartialEq, Eq)]
pub struct Config {
    pub gitlab_base_api_host: String,
    pub services: Vec<Service>,
}

/// The subjects that a service's matrix names, in its order.
pub open spec fn matrix_names(matrix: Seq<MatrixItem>) -> Seq<Seq<char>> {
    matrix.map_values(|item: MatrixItem| item.name@)
}

/// The subjects that the services name, service after service.
pub open spec fn subject_names(services: Seq<Service>) -> Seq<Seq<char>>
    decreases services.len(),
{
    if services.len() == 0 {
        Seq::<Seq<char>>::empty()
    } else {
        subject_names(services.drop_last()) + matrix_names(services.last().matrix@)
    }
}

/// The texts that a list of borrowed strings holds.
pub open spec fn borrowed_texts(list: Seq<&String>) -> Seq<Seq<char>> {
    list.map_values(|s: &String| s@)
}

/// Whether one of `list` is the text `wanted`.
fn holds(list: &Vec<&String>, wanted: &String) -> (r: bool)
    ensures
        r == borrowed_texts(list@).contains(wanted@),
{
    let mut i: usize = 0;
    while i < list.len()
        invariant
            i <= list@.len(),
            forall|j: int| 0 <= j < i ==> borrowed_texts(list@)[j] != wanted@,
        decreases list@.len() - i,
    {
        if *list[i] == *wanted {
            assert(borrowed_texts(list@)[i as int] == wanted@);
            return true;
        }
        i += 1;
    }
    false
}

impl Config {
    /// Every subject that some service names, once, in the order in which
    /// the configuration first names them.
    pub fn get_list_of_subjects(&self) -> (subjects: Vec<&String>)
        ensures
            borrowed_texts(subjects@) == distinct(subject_names(self.services@)),
    {
        let mut subjects: Vec<&String> = Vec::new();
        let mut i: usize = 0;
        while i < self.services.len()
            invariant
                i <= self.services@.len(),
                borrowed_texts(subjects@) == distinct(subject_names(self.services@.take(i as int))),
            decreases self.services@.len() - i,
        {
            let service = &self.services[i];
            let ghost before = subject_names(self.services@.take(i as int));
            let mut j: usize = 0;
            assert(before + matrix_names(service.matrix@.take(0)) =~= before);
            while j < service.matrix.len()
                invariant
                    j <= service.matrix@.len(),
                    borrowed_texts(subjects@) == distinct(before + matrix_names(service.matrix@.take(j as int))),
                decreases service.matrix@.len() - j,
            {
                let name = &service.matrix[j].name;
                proof {
                    let so_far = before + matrix_names(service.matrix@.take(j as int));
                    let next = before + matrix_names(service.matrix@.take(j + 1));
                    assert(next.drop_last() =~= so_far);
                    assert(next.last() == name@);
                }
                if !holds(&subjects, name) {
                    let ghost held = borrowed_texts(subjects@);
                    subjects.push(name);
                    assert(borrowed_texts(subjects@) =~= held.push(name@));
                }
                j += 1;
            }
            proof {
                assert(service.matrix@.take(j as int) =~= service.matrix@);
                assert(self.services@.take(i + 1).drop_last() =~= self.services@.take(i as int));
            }
            i += 1;
        }
        assert(self.services@.take(i as int) =~= self.services@);
        subjects
    }
}

/// The file that holds a project's pipeline.
pub open spec fn pipeline_file() -> Seq<char> {
    ".gitlab-ci.yml"@
}

/// What is fetched for the pipeline of a project at a tag.
pub open spec fn pipeline_fetch(host: Seq<char>, project_id: Seq<char>, tag: Seq<char>) -> Fetch {
    Fetch { host, project: project_id, file: pipeline_file(), reference: Some(tag) }
}

/// The name under which a service at one of its tags stands in the rows:
/// the service's name, `@`, and the tag.
pub open spec fn service_at(name: Seq<char>, tag: Seq<char>) -> Seq<char> {
    name.push('@') + tag
}

/// The rows that one lookup gives: a row for each version found, in their
/// order; where the lookup failed, one row without a version.
pub open spec fn rows_of(service: Seq<char>, subject: Seq<char>, result: Result<Seq<Seq<char>>, MatrixFailure>) -> Seq<
    Finding,
> {
    match result {
        Ok(versions) => versions.map_values(|version: Seq<char>| Finding { service, subject, version: Some(version) }),
        Err(_) => seq![Finding { service, subject, version: None }],
    }
}

impl Service {
    /// What is fetched for the service's pipeline: the file of the pipeline
    /// in the service's project, as it stands at `git_ref` where one is given.
    pub fn get_ci(&self, gitlab_base_host: &str, git_ref: Option<&str>) -> (request: FetchRequest)
        ensures
            request@ == (Fetch {
                host: gitlab_base_host@,
                project: self.ci.id(),
                file: pipeline_file(),
                reference: match git_ref {
                    Some(tag) => Some(tag@),
                    None => None,
                },
            }),
    {
        FetchRequest {
            gitlab_base_host: gitlab_base_host.to_owned(),
            project: self.ci.project_id().to_owned(),
            file: ".gitlab-ci.yml".to_owned(),
            reference: match git_ref {
                Some(tag) => Some(tag.to_owned()),
                None => None,
            },
        }
    }

    /// The order to fetch the names of the service's tags.
    pub fn get_tags(&self, gitlab_base_host: &str) -> (action: Action)
        ensures
            action@ == (Order::FetchTags { host: gitlab_base_host@, project_id: self.ci.id() }),
    {
        Action::FetchTags {
            gitlab_base_host: gitlab_base_host.to_owned(),
            project_id: self.ci.project_id().to_owned(),
        }
    }

    /// The name under which the service at `tag` stands in the rows.
    pub fn name_at(&self, tag: &str) -> (name: String)
        ensures
            name@ == service_at(self.name@, tag@),
    {
        let mut name = self.name.clone();
        name.push('@');
        name.append(tag);
        name
    }
}

/// Adds to `rows` what one lookup gave for `subject`.
pub fn push_rows(rows: &mut Vec<CompatibilityRow>, service: &str, subject: &str, result: Result<
    Vec<String>,
    MatrixError,
>)
    ensures
        findings(final(rows)@) == findings(old(rows)@) + rows_of(service@, subject@, outcome(result)),
{
    match result {
        Ok(versions) => {
            let ghost start = findings(rows@);
            let ghost wanted = rows_of(service@, subject@, outcome(result));
            let mut i: usize = 0;
            while i < versions.len()
                invariant
                    i <= versions@.len(),
                    wanted == rows_of(service@, subject@, Ok(texts(versions@))),
                    findings(rows@) == start + wanted.take(i as int),
                decreases versions@.len() - i,
            {
                let ghost held = findings(rows@);
                let row = CompatibilityRow {
                    service_name: service.to_owned(),
                    compatibility_subject: subject.to_owned(),
                    version: Some(versions[i].clone()),
                };
                rows.push(row);
                proof {
                    assert(findings(rows@) =~= held.push(row@));
                    assert(row@ == wanted[i as int]);
                    assert(start + wanted.take(i + 1) =~= (start + wanted.take(i as int)).push(wanted[i as int]));
                }
                i += 1;
            }
            assert(wanted.take(i as int) =~= wanted);
        },
        Err(_) => {
            let ghost held = findings(rows@);
            let row = CompatibilityRow {
                service_name: service.to_owned(),
                compatibility_subject: subject.to_owned(),
                version: None,
            };
            rows.push(row);
            assert(findings(rows@) =~= held + seq![row@]);
        },
    }
}

/// Why the rows of a configuration could not be collected.
#[derive(Debug, Clone, Copy, PartialEq, Eq)]
pub enum CollectError {
    /// The service at this position has fewer than two major lines with a
    /// stable tag: it has `found`.
    TooFewMajors { service: usize, found: usize },
    /// The collector was handed something that it had not asked for.
    UnexpectedEvent,
}

/// What the collector waits for.
#[derive(Debug, Clone, Copy, PartialEq, Eq)]
pub enum Phase {
    /// The tags of the current service.
    Tags,
    /// The pipeline of the current service at the current tag.
    Pipeline,
    /// The document that the current item of the matrix stands in.
    Included,
    /// Nothing: every row is collected.
    Finished,
    /// Nothing: the collection has failed.
    Failed,
}

/// What is to be done next for the collector.
#[derive(Debug, PartialEq, Eq)]
pub enum Action {
    /// Fetch the names of a project's tags and hand them back.
    FetchTags { gitlab_base_host: String, project_id: String },
    /// Fetch a document and hand its text back.
    FetchFile(FetchRequest),
    /// Take the rows: they are complete.
    Done,
    Failed(CollectError),
}

/// What an `Action` says.
pub ghost enum Order {
    FetchTags { host: Seq<char>, project_id: Seq<char> },
    FetchFile(Fetch),
    Done,
    Failed(CollectError),
}

impl View for Action {
    type V = Order;

    open spec fn view(&self) -> Order {
        match self {
            Action::FetchTags { gitlab_base_host, project_id } => Order::FetchTags {
                host: gitlab_base_host@,
                project_id: project_id@,
            },
            Action::FetchFile(request) => Order::FetchFile(request@),
            Action::Done => Order::Done,
            Action::Failed(e) => Order::Failed(*e),
        }
    }
}

/// What was fetched for the collector.
#[derive(Debug, PartialEq, Eq)]
pub enum Event {
    /// The names of the tags of the project asked for.
    Tags(Vec<String>),
    /// The text of the document asked for.
    File(String),
}

/// What an `Event` holds.
pub ghost enum Answer {
    Tags(Seq<Seq<char>>),
    File(Seq<char>),
}

impl View for Event {
    type V = Answer;

    open spec fn view(&self) -> Answer {
        match self {
            Event::Tags(tags) => Answer::Tags(texts(tags@)),
            Event::File(text) => Answer::File(text@),
        }
    }
}

/// Where a collection stands.
pub ghost struct Position {
    /// The rows collected so far.
    pub rows: Seq<Finding>,
    /// The service at work.
    pub service: nat,
    /// The tags of that service whose pipelines are read.
    pub majors: Seq<Seq<char>>,
    /// Which of them is at work.
    pub major: nat,
    /// The pipeline at that tag, where its text was a document.
    pub document: Option<Node>,
    /// The item of the service's matrix at work.
    pub item: nat,
    pub phase: Phase,
}

/// Collects the rows of a configuration, one fetch at a time.
///
/// The collector goes through the services in their order. Of each it asks
/// for the tags and takes the two newest major lines; for each of the two,
/// newest first, it asks for the pipeline at that tag and goes through the
/// items of the service's matrix in their order. What it needs fetched it
/// hands out as an `Action`; what was fetched comes back as an `Event`.
pub struct Collector<'a> {
    config: &'a Config,
    rows: Vec<CompatibilityRow>,
    service: usize,
    majors: Vec<String>,
    major: usize,
    document: Option<Node>,
    item: usize,
    phase: Phase,
}

/// Whether a position fits a configuration: what it points at is there.
pub open spec fn fits(config: Config, p: Position) -> bool {
    match p.phase {
        Phase::Tags => p.service < config.services@.len(),
        Phase::Pipeline => p.service < config.services@.len() && p.majors.len() == 2 && p.major < 2,
        Phase::Included => p.service < config.services@.len() && p.majors.len() == 2 && p.major < 2 && p.item
            < config.services@[p.service as int].matrix@.len(),
        Phase::Finished => true,
        Phase::Failed => true,
    }
}

/// The position with nothing to wait for, after a failure.
pub open spec fn failed(p: Position) -> Position {
    Position { phase: Phase::Failed, ..p }
}

/// The first step for the service `service`, or the end where there is no
/// such service.
pub open spec fn enter_service(config: Config, rows: Seq<Finding>, service: nat) -> (Position, Order) {
    let p = Position {
        rows,
        service,
        majors: Seq::<Seq<char>>::empty(),
        major: 0,
        document: None,
        item: 0,
        phase: Phase::Tags,
    };
    if service < config.services@.len() {
        (
            p,
            Order::FetchTags {
                host: config.gitlab_base_api_host@,
                project_id: config.services@[service as int].ci.id(),
            },
        )
    } else {
        (Position { phase: Phase::Finished, ..p }, Order::Done)
    }
}

/// Goes on from the item `p.item` of the current service's matrix, with the
/// pipeline `p.document`: each item whose list stands in the pipeline adds
/// its rows; the first item whose list stands in another document stops the
/// walk, and that document is asked for. After the last item comes the
/// pipeline at the next tag, after the last tag the next service.
pub open spec fn go_on(config: Config, p: Position) -> (Position, Order)
    recommends
        p.service < config.services@.len(),
        p.majors.len() == 2,
        p.major < 2,
    decreases config.services@[p.service as int].matrix@.len() - p.item,
{
    let service = config.services@[p.service as int];
    let host = config.gitlab_base_api_host@;
    if p.item < service.matrix@.len() {
        let item = service.matrix@[p.item as int];
        match matrix_plan_of_text(p.document, item.path@, item.include_index, host) {
            MatrixPlan::Done(result) => go_on(
                config,
                Position {
                    rows: p.rows + rows_of(service_at(service.name@, p.majors[p.major as int]), item.name@, result),
                    item: p.item + 1,
                    ..p
                },
            ),
            MatrixPlan::Fetch(fetch) => (Position { phase: Phase::Included, ..p }, Order::FetchFile(fetch)),
        }
    } else if p.major + 1 < 2 {
        (
            Position { major: p.major + 1, document: None, item: 0, phase: Phase::Pipeline, ..p },
            Order::FetchFile(pipeline_fetch(host, service.ci.id(), p.majors[p.major as int + 1])),
        )
    } else {
        enter_service(config, p.rows, p.service + 1)
    }
}

/// The position and the order that follow when `answer` comes in at `p`.
///
/// Tags: the service's major lines are worked out; with fewer than two the
/// collection fails, else the pipeline at the newest is asked for. A
/// pipeline: the walk through the matrix begins. An included document: the
/// list is read from it, its rows are added, and the walk goes on. Anything
/// that was not asked for makes the collection fail.
pub open spec fn next(config: Config, p: Position, answer: Answer) -> (Position, Order) {
    let unexpected = (failed(p), Order::Failed(CollectError::UnexpectedEvent));
    match p.phase {
        Phase::Tags => match answer {
            Answer::Tags(tags) => {
                let found = major_versions(tags);
                if found.len() < 2 {
                    (
                        failed(p),
                        Order::Failed(
                            CollectError::TooFewMajors { service: p.service as usize, found: found.len() as usize },
                        ),
                    )
                } else {
                    (
                        Position {
                            majors: found.take(2),
                            major: 0,
                            document: None,
                            item: 0,
                            phase: Phase::Pipeline,
                            ..p
                        },
                        Order::FetchFile(
                            pipeline_fetch(
                                config.gitlab_base_api_host@,
                                config.services@[p.service as int].ci.id(),
                                found[0],
                            ),
                        ),
                    )
                }
            },
            Answer::File(_) => unexpected,
        },
        Phase::Pipeline => match answer {
            Answer::File(text) => go_on(config, Position { document: yaml_document(text), item: 0, ..p }),
            Answer::Tags(_) => unexpected,
        },
        Phase::Included => match answer {
            Answer::File(text) => {
                let service = config.services@[p.service as int];
                let item = service.matrix@[p.item as int];
                go_on(
                    config,
                    Position {
                        rows: p.rows + rows_of(
                            service_at(service.name@, p.majors[p.major as int]),
                            item.name@,
                            matrix_in_text(yaml_document(text), item.path@),
                        ),
                        item: p.item + 1,
                        phase: Phase::Pipeline,
                        ..p
                    },
                )
            },
            Answer::Tags(_) => unexpected,
        },
        Phase::Finished => unexpected,
        Phase::Failed => unexpected,
    }
}

impl Config {
    /// Begins to collect the rows of the configuration: the collector, and
    /// the first thing that it needs fetched.
    pub fn config_to_compatibility_vec(&self) -> (r: (Collector<'_>, Action))
        ensures
            r.0.configuration() == *self,
            (r.0@, r.1@) == enter_service(*self, Seq::<Finding>::empty(), 0),
    {
        Collector::new(self)
    }
}

impl<'a> Collector<'a> {
    #[verifier::type_invariant]
    spec fn fits_config(self) -> bool {
        fits(*self.config, self@)
    }

    /// Where the collection stands.
    pub closed spec fn view(&self) -> Position {
        Position {
            rows: findings(self.rows@),
            service: self.service as nat,
            majors: texts(self.majors@),
            major: self.major as nat,
            document: self.document,
            item: self.item as nat,
            phase: self.phase,
        }
    }

    /// The configuration whose rows are collected.
    pub closed spec fn configuration(&self) -> Config {
        *self.config
    }

    /// The first step for the service at `service`.
    fn enter(config: &'a Config, rows: Vec<CompatibilityRow>, service: usize) -> (r: (Collector<'a>, Action))
        ensures
            r.0.configuration() == *config,
            (r.0@, r.1@) == enter_service(*config, findings(rows@), service as nat),
    {
        if service < config.services.len() {
            let action = config.services[service].get_tags(config.gitlab_base_api_host.as_str());
            let majors: Vec<String> = Vec::new();
            assert(texts(majors@) =~= Seq::<Seq<char>>::empty());
            (Collector { config, rows, service, majors, major: 0, document: None, item: 0, phase: Phase::Tags }, action)
        } else {
            let majors: Vec<String> = Vec::new();
            assert(texts(majors@) =~= Seq::<Seq<char>>::empty());
            (
                Collector { config, rows, service, majors, major: 0, document: None, item: 0, phase: Phase::Finished },
                Action::Done,
            )
        }
    }

    /// A collector for `config`, and its first action.
    pub fn new(config: &'a Config) -> (r: (Collector<'a>, Action))
        ensures
            r.0.configuration() == *config,
            (r.0@, r.1@) == enter_service(*config, Seq::<Finding>::empty(), 0),
    {
        let rows: Vec<CompatibilityRow> = Vec::new();
        assert(findings(rows@) =~= Seq::<Finding>::empty());
        Collector::enter(config, rows, 0)
    }

    /// Goes on through the matrix of the current service.
    fn advance(
        config: &'a Config,
        rows: Vec<CompatibilityRow>,
        service: usize,
        majors: Vec<String>,
        major: usize,
        document: Option<Node>,
        item: usize,
    ) -> (r: (Collector<'a>, Action))
        requires
            service < config.services@.len(),
            majors@.len() == 2,
            major < 2,
        ensures
            r.0.configuration() == *config,
            (r.0@, r.1@) == go_on(
                *config,
                Position {
                    rows: findings(rows@),
                    service: service as nat,
                    majors: texts(majors@),
                    major: major as nat,
                    document,
                    item: item as nat,
                    phase: Phase::Pipeline,
                },
            ),
    {
        let ghost start = Position {
            rows: findings(rows@),
            service: service as nat,
            majors: texts(majors@),
            major: major as nat,
            document,
            item: item as nat,
            phase: Phase::Pipeline,
        };
        let current = &config.services[service];
        let name = current.name_at(majors[major].as_str());
        let mut collected = rows;
        let mut at = item;
        while at < current.matrix.len()
            invariant
                service < config.services@.len(),
                *current == config.services@[service as int],
                majors@.len() == 2,
                major < 2,
                name@ == service_at(current.name@, majors@[major as int]@),
                start == (Position {
                    rows: findings(rows@),
                    service: service as nat,
                    majors: texts(majors@),
                    major: major as nat,
                    document,
                    item: item as nat,
                    phase: Phase::Pipeline,
                }),
                go_on(*config, start) == go_on(
                    *config,
                    Position { rows: findings(collected@), item: at as nat, ..start },
                ),
            decreases current.matrix@.len() - at,
        {
            let entry = &current.matrix[at];
            let step = match &document {
                Some(root) => plan_matrix(
                    root,
                    entry.path.as_str(),
                    entry.include_index,
                    config.gitlab_base_api_host.as_str(),
                ),
                None => MatrixStep::Done(Err(MatrixError::InvalidDocument)),
            };
            let ghost here = Position { rows: findings(collected@), item: at as nat, ..start };
            proof {
                assert(texts(majors@)[major as int] == majors@[major as int]@);
                assert(step@ == matrix_plan_of_text(
                    document,
                    entry.path@,
                    entry.include_index,
                    config.gitlab_base_api_host@,
                ));
                assert(config.services@[here.service as int].matrix@[here.item as int] == *entry);
            }
            match step {
                MatrixStep::Done(result) => {
                    push_rows(&mut collected, name.as_str(), entry.name.as_str(), result);
                    at += 1;
                },
                MatrixStep::Fetch(request) => {
                    return (
                        Collector {
                            config,
                            rows: collected,
                            service,
                            majors,
                            major,
                            document,
                            item: at,
                            phase: Phase::Included,
                        },
                        Action::FetchFile(request),
                    );
                },
            }
        }
        proof {
            assert(texts(majors@)[major as int] == majors@[major as int]@);
        }
        if major + 1 < 2 {
            let request = current.get_ci(config.gitlab_base_api_host.as_str(), Some(majors[major + 1].as_str()));
            proof {
                assert(texts(majors@)[major + 1] == majors@[major + 1]@);
            }
            (
                Collector {
                    config,
                    rows: collected,
                    service,
                    majors,
                    major: major + 1,
                    document: None,
                    item: 0,
                    phase: Phase::Pipeline,
                },
                Action::FetchFile(request),
            )
        } else {
            assert(service < config.services.len());
            Collector::enter(config, collected, service + 1)
        }
    }

    /// Takes in what was fetched, and says what is to be done next.
    pub fn step(self, event: Event) -> (r: (Collector<'a>, Action))
        ensures
            r.0.configuration() == self.configuration(),
            (r.0@, r.1@) == next(self.configuration(), self@, event@),
    {
        proof {
            use_type_invariant(&self);
        }
        let ghost p = self@;
        let ghost answer = event@;
        let Collector { config, rows, service, majors, major, document, item, phase } = self;
        let r = match phase {
            Phase::Tags => match event {
                Event::Tags(tags) => {
                    let found = get_major_versions(&tags);
                    if found.len() < 2 {
                        let e = CollectError::TooFewMajors { service, found: found.len() };
                        (
                            Collector { config, rows, service, majors, major, document, item, phase: Phase::Failed },
                            Action::Failed(e),
                        )
                    } else {
                        let request = config.services[service].get_ci(
                            config.gitlab_base_api_host.as_str(),
                            Some(found[0].as_str()),
                        );
                        let mut two: Vec<String> = Vec::new();
                        two.push(found[0].clone());
                        two.push(found[1].clone());
                        proof {
                            assert(texts(two@) =~= texts(found@).take(2));
                            assert(texts(found@)[0] == found@[0]@);
                        }
                        (
                            Collector {
                                config,
                                rows,
                                service,
                                majors: two,
                                major: 0,
                                document: None,
                                item: 0,
                                phase: Phase::Pipeline,
                            },
                            Action::FetchFile(request),
                        )
                    }
                },
                Event::File(_) => {
                    Collector::fail(config, rows, service, majors, major, document, item)
                },
            },
            Phase::Pipeline => match event {
                Event::File(text) => {
                    let parsed = parse_document(text.as_str());
                    Collector::advance(config, rows, service, majors, major, parsed, 0)
                },
                Event::Tags(_) => {
                    Collector::fail(config, rows, service, majors, major, document, item)
                },
            },
            Phase::Included => match event {
                Event::File(text) => {
                    let current = &config.services[service];
                    let entry = &current.matrix[item];
                    let name = current.name_at(majors[major].as_str());
                    let result = get_included_matrix(text.as_str(), entry.path.as_str());
                    let mut collected = rows;
                    assert(item < current.matrix.len());
                    proof {
                        assert(texts(majors@)[major as int] == majors@[major as int]@);
                    }
                    push_rows(&mut collected, name.as_str(), entry.name.as_str(), result);
                    Collector::advance(config, collected, service, majors, major, document, item + 1)
                },
                Event::Tags(_) => {
                    Collector::fail(config, rows, service, majors, major, document, item)
                },
            },
            Phase::Finished => {
                Collector::fail(config, rows, service, majors, major, document, item)
            },
            Phase::Failed => {
                Collector::fail(config, rows, service, majors, major, document, item)
            },
        };
        assert((r.0@, r.1@) == next(*config, p, answer));
        r
    }

    /// The end of a collection that was handed what it had not asked for.
    fn fail(
        config: &'a Config,
        rows: Vec<CompatibilityRow>,
        service: usize,
        majors: Vec<String>,
        major: usize,
        document: Option<Node>,
        item: usize,
    ) -> (r: (Collector<'a>, Action))
        ensures
            r.0.configuration() == *config,
            r.0@ == (Position {
                rows: findings(rows@),
                service: service as nat,
                majors: texts(majors@),
                major: major as nat,
                document,
                item: item as nat,
                phase: Phase::Failed,
            }),
            r.1@ == Order::Failed(CollectError::UnexpectedEvent),
    {
        (
            Collector { config, rows, service, majors, major, document, item, phase: Phase::Failed },
            Action::Failed(CollectError::UnexpectedEvent),
        )
    }

    /// What the collector waits for.
    pub fn phase(&self) -> (phase: Phase)
        ensures
            phase == self@.phase,
    {
        self.phase
    }

    /// The rows collected so far.
    pub fn rows(&self) -> (rows: &Vec<CompatibilityRow>)
        ensures
            findings(rows@) == self@.rows,
    {
        &self.rows
    }

    /// The rows collected so far, for keeps.
    pub fn into_rows(self) -> (rows: Vec<CompatibilityRow>)
        ensures
            findings(rows@) == self@.rows,
    {
        self.rows
    }
}

} // verus!
