//! What a collection yields as a whole, when every fetch is answered.

use crate::config::{
    enter_service, go_on, next, pipeline_fetch, rows_of, service_at, Answer, CollectError, Config, MatrixItem, Order,
    Phase, Position, Service,
};
use crate::document::{yaml_document, Node};
use crate::gitlab_ci::{matrix_in_text, matrix_plan_of_text, Fetch, MatrixFailure, MatrixPlan};
use crate::table_builder::Finding;
use crate::versions::major_versions;
use vstd::prelude::*;

verus! {

/// What the collaborators hand back: the tags of each project of a host,
/// and the text of each document.
pub ghost struct World {
    pub tags: spec_fn(Seq<char>, Seq<char>) -> Seq<Seq<char>>,
    pub files: spec_fn(Fetch) -> Seq<char>,
}

/// The list of versions of one item of a matrix, read from the pipeline
/// `document` or, where the item says so, from the document that the
/// pipeline includes.
pub open spec fn item_result(world: World, document: Option<Node>, item: MatrixItem, host: Seq<char>) -> Result<
    Seq<Seq<char>>,
    MatrixFailure,
> {
    match matrix_plan_of_text(document, item.path@, item.include_index, host) {
        MatrixPlan::Done(result) => result,
        MatrixPlan::Fetch(fetch) => matrix_in_text(yaml_document((world.files)(fetch)), item.path@),
    }
}

/// The rows of the items of a service's matrix from `from` on, for the
/// pipeline `document` at `tag`.
pub open spec fn items_rows(
    world: World,
    host: Seq<char>,
    service: Service,
    tag: Seq<char>,
    document: Option<Node>,
    from: nat,
) -> Seq<Finding>
    decreases service.matrix@.len() - from,
{
    if from >= service.matrix@.len() {
        Seq::<Finding>::empty()
    } else {
        let item = service.matrix@[from as int];
        rows_of(service_at(service.name@, tag), item.name@, item_result(world, document, item, host)) + items_rows(
            world,
            host,
            service,
            tag,
            document,
            from + 1,
        )
    }
}

/// The rows of a service at one of its tags.
pub open spec fn tag_rows(world: World, host: Seq<char>, service: Service, tag: Seq<char>) -> Seq<Finding> {
    let document = yaml_document((world.files)(pipeline_fetch(host, service.ci.id(), tag)));
    items_rows(world, host, service, tag, document, 0)
}

/// The tags of a service whose pipelines are read: one for each major line,
/// newest first.
pub open spec fn service_majors(world: World, host: Seq<char>, service: Service) -> Seq<Seq<char>> {
    major_versions((world.tags)(host, service.ci.id()))
}

/// The rows of a service: those of its newest major line, then those of the
/// one before.
pub open spec fn service_rows(world: World, host: Seq<char>, service: Service) -> Seq<Finding> {
    let majors = service_majors(world, host, service);
    tag_rows(world, host, service, majors[0]) + tag_rows(world, host, service, majors[1])
}

/// The rows of the services from `from` on, behind `rows`; or the first
/// service with fewer than two major lines.
pub open spec fn collected_from(world: World, config: Config, rows: Seq<Finding>, from: nat) -> Result<
    Seq<Finding>,
    CollectError,
>
    decreases config.services@.len() - from,
{
    if from >= config.services@.len() {
        Ok(rows)
    } else {
        let service = config.services@[from as int];
        let host = config.gitlab_base_api_host@;
        let majors = service_majors(world, host, service);
        if majors.len() < 2 {
            Err(CollectError::TooFewMajors { service: from as usize, found: majors.len() as usize })
        } else {
            collected_from(world, config, rows + service_rows(world, host, service), from + 1)
        }
    }
}

/// The rows of a configuration: those of its services, in their order.
pub open spec fn collected(world: World, config: Config) -> Result<Seq<Finding>, CollectError> {
    collected_from(world, config, Seq::<Finding>::empty(), 0)
}

/// What the world answers to an order; nothing to one that ends the work.
pub open spec fn answer_to(world: World, order: Order) -> Option<Answer> {
    match order {
        Order::FetchTags { host, project_id } => Some(Answer::Tags((world.tags)(host, project_id))),
        Order::FetchFile(fetch) => Some(Answer::File((world.files)(fetch))),
        Order::Done => None,
        Order::Failed(_) => None,
    }
}

/// Where a collection stands after at most `steps` orders were answered.
pub open spec fn run(world: World, config: Config, state: (Position, Order), steps: nat) -> (Position, Order)
    decreases steps,
{
    if steps == 0 {
        state
    } else {
        match answer_to(world, state.1) {
            Some(answer) => run(world, config, next(config, state.0, answer), (steps - 1) as nat),
            None => state,
        }
    }
}

/// Running on after a run is one longer run.
pub proof fn lemma_run_on(world: World, config: Config, state: (Position, Order), first: nat, then: nat)
    ensures
        run(world, config, run(world, config, state, first), then) == run(world, config, state, first + then),
    decreases first,
{
    if first > 0 {
        match answer_to(world, state.1) {
            Some(answer) => {
                lemma_run_on(world, config, next(config, state.0, answer), (first - 1) as nat, then);
            },
            None => {
                lemma_run_ended(world, config, state, then);
                lemma_run_ended(world, config, state, first + then);
            },
        }
    }
}

/// A collection that has ended stays where it is.
pub proof fn lemma_run_ended(world: World, config: Config, state: (Position, Order), steps: nat)
    requires
        answer_to(world, state.1) is None,
    ensures
        run(world, config, state, steps) == state,
{
}

/// The position in the matrix of a service, with a pipeline at hand.
pub open spec fn at_item(
    rows: Seq<Finding>,
    service: nat,
    majors: Seq<Seq<char>>,
    major: nat,
    document: Option<Node>,
    item: nat,
) -> Position {
    Position { rows, service, majors, major, document, item, phase: Phase::Pipeline }
}

/// From any item of a matrix the run reaches the end of the matrix, and
/// has then added the rows of the items between.
pub proof fn lemma_run_items(
    world: World,
    config: Config,
    rows: Seq<Finding>,
    service: nat,
    majors: Seq<Seq<char>>,
    major: nat,
    document: Option<Node>,
    item: nat,
) -> (steps: nat)
    requires
        service < config.services@.len(),
        majors.len() == 2,
        major < 2,
        item <= config.services@[service as int].matrix@.len(),
    ensures
        run(world, config, go_on(config, at_item(rows, service, majors, major, document, item)), steps) == go_on(
            config,
            at_item(
                rows + items_rows(
                    world,
                    config.gitlab_base_api_host@,
                    config.services@[service as int],
                    majors[major as int],
                    document,
                    item,
                ),
                service,
                majors,
                major,
                document,
                config.services@[service as int].matrix@.len(),
            ),
        ),
    decreases config.services@[service as int].matrix@.len() - item,
{
    let current = config.services@[service as int];
    let host = config.gitlab_base_api_host@;
    let tag = majors[major as int];
    let here = at_item(rows, service, majors, major, document, item);
    if item >= current.matrix@.len() {
        assert(rows + items_rows(world, host, current, tag, document, item) =~= rows);
        0
    } else {
        let entry = current.matrix@[item as int];
        let added = rows_of(service_at(current.name@, tag), entry.name@, item_result(world, document, entry, host));
        let rest = items_rows(world, host, current, tag, document, item + 1);
        assert(rows + items_rows(world, host, current, tag, document, item) =~= (rows + added) + rest);
        match matrix_plan_of_text(document, entry.path@, entry.include_index, host) {
            MatrixPlan::Done(result) => {
                assert(go_on(config, here) == go_on(
                    config,
                    at_item(rows + added, service, majors, major, document, item + 1),
                ));
                lemma_run_items(world, config, rows + added, service, majors, major, document, item + 1)
            },
            MatrixPlan::Fetch(fetch) => {
                let waiting = Position { phase: Phase::Included, ..here };
                assert(go_on(config, here) == (waiting, Order::FetchFile(fetch)));
                let text = (world.files)(fetch);
                assert(next(config, waiting, Answer::File(text)) == go_on(
                    config,
                    at_item(rows + added, service, majors, major, document, item + 1),
                ));
                let more = lemma_run_items(world, config, rows + added, service, majors, major, document, item + 1);
                assert(run(world, config, go_on(config, here), more + 1) == run(
                    world,
                    config,
                    next(config, waiting, Answer::File(text)),
                    more,
                ));
                more + 1
            },
        }
    }
}

/// From the order for a pipeline the run reaches the end of the matrix,
/// and has then added the rows of the service at that tag.
pub proof fn lemma_run_tag(
    world: World,
    config: Config,
    rows: Seq<Finding>,
    service: nat,
    majors: Seq<Seq<char>>,
    major: nat,
    before: Option<Node>,
    item: nat,
) -> (steps: nat)
    requires
        service < config.services@.len(),
        majors.len() == 2,
        major < 2,
    ensures
        run(
            world,
            config,
            (
                Position { rows, service, majors, major, document: before, item, phase: Phase::Pipeline },
                Order::FetchFile(
                    pipeline_fetch(
                        config.gitlab_base_api_host@,
                        config.services@[service as int].ci.id(),
                        majors[major as int],
                    ),
                ),
            ),
            steps,
        ) == go_on(
            config,
            at_item(
                rows + tag_rows(
                    world,
                    config.gitlab_base_api_host@,
                    config.services@[service as int],
                    majors[major as int],
                ),
                service,
                majors,
                major,
                yaml_document(
                    (world.files)(
                        pipeline_fetch(
                            config.gitlab_base_api_host@,
                            config.services@[service as int].ci.id(),
                            majors[major as int],
                        ),
                    ),
                ),
                config.services@[service as int].matrix@.len(),
            ),
        ),
{
    let current = config.services@[service as int];
    let host = config.gitlab_base_api_host@;
    let fetch = pipeline_fetch(host, current.ci.id(), majors[major as int]);
    let document = yaml_document((world.files)(fetch));
    let waiting = Position { rows, service, majors, major, document: before, item, phase: Phase::Pipeline };
    assert(next(config, waiting, Answer::File((world.files)(fetch))) == go_on(
        config,
        at_item(rows, service, majors, major, document, 0),
    ));
    let more = lemma_run_items(world, config, rows, service, majors, major, document, 0);
    assert(run(world, config, (waiting, Order::FetchFile(fetch)), more + 1) == run(
        world,
        config,
        next(config, waiting, Answer::File((world.files)(fetch))),
        more,
    ));
    more + 1
}

/// From the first order for a service the run reaches the first order for
/// the next, and has then added the rows of the service; or it ends where
/// the service has fewer than two major lines.
pub proof fn lemma_run_service(world: World, config: Config, rows: Seq<Finding>, service: nat) -> (steps: nat)
    requires
        service < config.services@.len(),
    ensures
        ({
            let current = config.services@[service as int];
            let host = config.gitlab_base_api_host@;
            let majors = service_majors(world, host, current);
            let end = run(world, config, enter_service(config, rows, service), steps);
            if majors.len() < 2 {
                end.1 == Order::Failed(
                    CollectError::TooFewMajors { service: service as usize, found: majors.len() as usize },
                )
            } else {
                end == enter_service(config, rows + service_rows(world, host, current), service + 1)
            }
        }),
{
    let current = config.services@[service as int];
    let host = config.gitlab_base_api_host@;
    let majors = service_majors(world, host, current);
    let start = enter_service(config, rows, service);
    let answer = Answer::Tags((world.tags)(host, current.ci.id()));
    assert(answer_to(world, start.1) == Some(answer));
    let after_tags = next(config, start.0, answer);
    if majors.len() < 2 {
        assert(run(world, config, start, 1) == run(world, config, after_tags, 0));
        1
    } else {
        let two = majors.take(2);
        assert(two[0] == majors[0] && two[1] == majors[1]);
        let first = lemma_run_tag(world, config, rows, service, two, 0, None, 0);
        let rows_one = rows + tag_rows(world, host, current, majors[0]);
        let document_one = yaml_document((world.files)(pipeline_fetch(host, current.ci.id(), majors[0])));
        let end_one = go_on(
            config,
            at_item(rows_one, service, two, 0, document_one, current.matrix@.len()),
        );
        assert(run(world, config, after_tags, first) == end_one);
        let second = lemma_run_tag(world, config, rows_one, service, two, 1, None, 0);
        let rows_two = rows_one + tag_rows(world, host, current, majors[1]);
        let document_two = yaml_document((world.files)(pipeline_fetch(host, current.ci.id(), majors[1])));
        let end_two = go_on(
            config,
            at_item(rows_two, service, two, 1, document_two, current.matrix@.len()),
        );
        assert(end_one == (
            Position { major: 1, document: None, item: 0, phase: Phase::Pipeline, ..end_one.0 },
            Order::FetchFile(pipeline_fetch(host, current.ci.id(), two[1])),
        ));
        assert(end_one.0 == Position {
            rows: rows_one,
            service,
            majors: two,
            major: 1,
            document: None,
            item: 0,
            phase: Phase::Pipeline,
        });
        assert(run(world, config, end_one, second) == end_two);
        assert(end_two == enter_service(config, rows_two, service + 1));
        assert(rows_two =~= rows + service_rows(world, host, current));
        lemma_run_on(world, config, after_tags, first, second);
        assert(run(world, config, start, first + second + 1) == run(world, config, after_tags, first + second));
        first + second + 1
    }
}

/// From the first order for a service the run reaches the end, with the
/// rows of that service and of all behind it added, or with the first
/// failure among them.
pub proof fn lemma_run_services(world: World, config: Config, rows: Seq<Finding>, service: nat) -> (steps: nat)
    requires
        service <= config.services@.len(),
    ensures
        ({
            let end = run(world, config, enter_service(config, rows, service), steps);
            match collected_from(world, config, rows, service) {
                Ok(all) => end.1 == Order::Done && end.0.rows == all && end.0.phase == Phase::Finished,
                Err(e) => end.1 == Order::Failed(e),
            }
        }),
    decreases config.services@.len() - service,
{
    if service >= config.services@.len() {
        0
    } else {
        let current = config.services@[service as int];
        let host = config.gitlab_base_api_host@;
        let majors = service_majors(world, host, current);
        let first = lemma_run_service(world, config, rows, service);
        if majors.len() < 2 {
            first
        } else {
            let more = rows + service_rows(world, host, current);
            let then = lemma_run_services(world, config, more, service + 1);
            lemma_run_on(world, config, enter_service(config, rows, service), first, then);
            first + then
        }
    }
}

/// A collection whose orders are all answered ends: with every row of the
/// configuration, service by service, or with the first service that has
/// fewer than two major lines.
pub proof fn lemma_collection_ends(world: World, config: Config) -> (steps: nat)
    ensures
        ({
            let end = run(world, config, enter_service(config, Seq::<Finding>::empty(), 0), steps);
            match collected(world, config) {
                Ok(all) => end.1 == Order::Done && end.0.rows == all && end.0.phase == Phase::Finished,
                Err(e) => end.1 == Order::Failed(e),
            }
        }),
{
    lemma_run_services(world, config, Seq::<Finding>::empty(), 0)
}

} // verus!
