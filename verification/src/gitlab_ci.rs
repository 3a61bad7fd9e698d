//! Walking a pipeline document: to the node at a path, and from there to the
//! list of versions that the pipeline is run against.

use crate::document::{parse_document, value_of, yaml_document, Node};
use crate::path::{clamp_step, decimal_text, digits_of, path_steps, step_of, step_of_chars, PathStep};
use crate::text::{chars_of, digit, is_digit, is_name_char, name_char, pieces_view, split, split_on, string_of, texts};
use vstd::prelude::*;

verus! {

/// Why a step of a path could not be taken.
#[derive(Debug, Clone, Copy, PartialEq, Eq)]
pub enum LookupFault {
    /// The mapping has no such key.
    MissingKey,
    /// A key was asked of a value that is no mapping.
    NotAMapping,
    /// An index was asked of a value that is no sequence.
    NotASequence,
    /// The sequence is shorter than the index asks.
    IndexOutOfBounds,
}

/// A path that does not lead to a node.
#[derive(Debug, Clone, PartialEq, Eq)]
pub struct LookupError {
    /// The whole path.
    pub path: String,
    /// Which step failed, counted from 0.
    pub position: usize,
    /// The text of that step.
    pub step: String,
    pub fault: LookupFault,
}

/// What a `LookupError` says.
pub ghost struct LookupFailure {
    pub path: Seq<char>,
    pub position: nat,
    pub step: Seq<char>,
    pub fault: LookupFault,
}

impl View for LookupError {
    type V = LookupFailure;

    open spec fn view(&self) -> LookupFailure {
        LookupFailure { path: self.path@, position: self.position as nat, step: self.step@, fault: self.fault }
    }
}

/// The value under the key `name` of a mapping.
pub open spec fn field_of(node: Node, name: Seq<char>) -> Result<Node, LookupFault> {
    match node.entries() {
        None => Err(LookupFault::NotAMapping),
        Some(entries) => match value_of(entries, name) {
            Some(value) => Ok(value),
            None => Err(LookupFault::MissingKey),
        },
    }
}

/// The element at `index` of a sequence.
pub open spec fn element_of(node: Node, index: nat) -> Result<Node, LookupFault> {
    match node.items() {
        None => Err(LookupFault::NotASequence),
        Some(items) => if index < items.len() {
            Ok(items[index as int])
        } else {
            Err(LookupFault::IndexOutOfBounds)
        },
    }
}

/// One step down from `node`: to the value under the step's field name and,
/// where the step has an index, on to that element of it.
pub open spec fn step_into(node: Node, step: (Seq<char>, Option<nat>)) -> Result<Node, LookupFault> {
    match field_of(node, step.0) {
        Err(fault) => Err(fault),
        Ok(child) => match step.1 {
            None => Ok(child),
            Some(index) => element_of(child, index),
        },
    }
}

/// Where `steps` lead from `node`, or the first step that cannot be taken
/// and why.
pub open spec fn walk(node: Node, steps: Seq<(Seq<char>, Option<nat>)>) -> Result<Node, (nat, LookupFault)>
    decreases steps.len(),
{
    if steps.len() == 0 {
        Ok(node)
    } else {
        match step_into(node, steps[0]) {
            Err(fault) => Err((0nat, fault)),
            Ok(next) => match walk(next, steps.drop_first()) {
                Ok(found) => Ok(found),
                Err((position, fault)) => Err((position + 1, fault)),
            },
        }
    }
}

/// The node at `path` under `root`, or what a `LookupError` says of the
/// first step that fails.
pub open spec fn node_at(root: Node, path: Seq<char>) -> Result<Node, LookupFailure> {
    match walk(root, path_steps(path)) {
        Ok(found) => Ok(found),
        Err((position, fault)) => Err(
            LookupFailure { path, position, step: split_on(path, '.')[position as int], fault },
        ),
    }
}

/// The outcome of a lookup that hands out a reference.
pub open spec fn found(r: Result<&Node, LookupFault>) -> Result<Node, LookupFault> {
    match r {
        Ok(node) => Ok(*node),
        Err(fault) => Err(fault),
    }
}

/// No sequence is long enough for an index to matter beyond the largest
/// machine word.
pub proof fn lemma_clamped_step(node: Node, step: (Seq<char>, Option<nat>))
    ensures
        step_into(node, clamp_step(step)) == step_into(node, step),
{
    broadcast use vstd::std_specs::vec::axiom_spec_len;

    match field_of(node, step.0) {
        Ok(child) => match child.untagged() {
            Node::Sequence(items) => {
                assert(items.len() == items@.len());
            },
            _ => {},
        },
        Err(_) => {},
    }
}

/// Clamping the indices changes nothing of where a path leads.
pub proof fn lemma_clamped_walk(node: Node, steps: Seq<(Seq<char>, Option<nat>)>)
    ensures
        walk(node, steps.map_values(|s: (Seq<char>, Option<nat>)| clamp_step(s))) == walk(node, steps),
    decreases steps.len(),
{
    let clamped = steps.map_values(|s: (Seq<char>, Option<nat>)| clamp_step(s));
    if steps.len() > 0 {
        lemma_clamped_step(node, steps[0]);
        assert(clamped.drop_first() =~= steps.drop_first().map_values(
            |s: (Seq<char>, Option<nat>)| clamp_step(s),
        ));
        match step_into(node, steps[0]) {
            Ok(next) => {
                lemma_clamped_walk(next, steps.drop_first());
            },
            Err(_) => {},
        }
    }
}

/// The value under `field_name` of the mapping `current`.
pub fn step_into_field<'a>(current: &'a Node, field_name: &str) -> (r: Result<&'a Node, LookupFault>)
    ensures
        found(r) == field_of(*current, field_name@),
{
    match current.as_mapping() {
        None => Err(LookupFault::NotAMapping),
        Some(_) => match current.get(field_name) {
            Some(value) => Ok(value),
            None => Err(LookupFault::MissingKey),
        },
    }
}

/// The element at `index` of the sequence under `field_name` of `current`.
pub fn step_into_array<'a>(current: &'a Node, field_name: &str, index: usize) -> (r: Result<
    &'a Node,
    LookupFault,
>)
    ensures
        found(r) == step_into(*current, (field_name@, Some(index as nat))),
{
    match step_into_field(current, field_name) {
        Err(fault) => Err(fault),
        Ok(array) => match array.as_sequence() {
            None => Err(LookupFault::NotASequence),
            Some(sequence) => if index < sequence.len() {
                Ok(&sequence[index])
            } else {
                Err(LookupFault::IndexOutOfBounds)
            },
        },
    }
}

/// One step down from `current`.
pub fn take_step<'a>(current: &'a Node, step: &PathStep) -> (r: Result<&'a Node, LookupFault>)
    ensures
        found(r) == step_into(*current, step@),
{
    match step {
        PathStep::Field(name) => step_into_field(current, name.as_str()),
        PathStep::Indexed(name, index) => step_into_array(current, name.as_str(), *index),
    }
}

/// The node at `path` under `root`.
///
/// The path is cut at its dots; each piece is a field name, or a field name
/// and an index. Every step goes down from the node that the step before it
/// reached. A step fails on a key that the mapping lacks, on a key asked of
/// what is no mapping, on an index asked of what is no sequence, and on an
/// index at or beyond the sequence's length; the error names the path and
/// that step.
pub fn resolve<'a>(root: &'a Node, path: &str) -> (r: Result<&'a Node, LookupError>)
    ensures
        match r {
            Ok(node) => node_at(*root, path@) == Ok::<Node, LookupFailure>(*node),
            Err(e) => node_at(*root, path@) == Err::<Node, LookupFailure>(e@),
        },
{
    let chars = chars_of(path);
    let pieces = split(&chars, '.');
    let ghost steps = path_steps(path@);
    let mut current: &'a Node = root;
    let mut i: usize = 0;
    proof {
        assert(steps.skip(0) =~= steps);
    }
    while i < pieces.len()
        invariant
            i <= pieces@.len(),
            pieces_view(pieces@) == split_on(path@, '.'),
            steps == path_steps(path@),
            walk(*root, steps) == match walk(*current, steps.skip(i as int)) {
                Ok(node) => Ok::<Node, (nat, LookupFault)>(node),
                Err((position, fault)) => Err((position + i as nat, fault)),
            },
        decreases pieces@.len() - i,
    {
        let step = step_of_chars(&pieces[i]);
        proof {
            let rest = steps.skip(i as int);
            assert(pieces_view(pieces@)[i as int] == pieces@[i as int]@);
            assert(rest[0] == step_of(pieces@[i as int]@));
            assert(rest.drop_first() =~= steps.skip(i + 1));
            lemma_clamped_step(*current, rest[0]);
        }
        match take_step(current, &step) {
            Ok(next) => {
                current = next;
            },
            Err(fault) => {
                let text = string_of(&pieces[i], 0, pieces[i].len());
                proof {
                    assert(pieces@[i as int]@.subrange(0, pieces@[i as int]@.len() as int) =~= pieces@[i as int]@);
                }
                return Err(LookupError { path: path.to_owned(), position: i, step: text, fault });
            },
        }
        i += 1;
    }
    Ok(current)
}

/// How many name characters stand in a row from position `from` on.
pub open spec fn name_chars_from(s: Seq<char>, from: int) -> nat
    decreases s.len() - from,
{
    if 0 <= from < s.len() && is_name_char(s[from]) {
        1 + name_chars_from(s, from + 1)
    } else {
        0
    }
}

/// One or more digits and dots, and nothing else.
pub open spec fn is_version_text(s: Seq<char>) -> bool {
    s.len() > 0 && forall|i: int| 0 <= i < s.len() ==> is_digit(#[trigger] s[i]) || s[i] == '.'
}

/// The version that a tag of a matrix names. A tag of the form
/// `label:version`, with a label of letters and underscores and a version
/// of digits and dots, stands for its version; any other tag stands for
/// itself.
pub open spec fn version_of(tag: Seq<char>) -> Seq<char> {
    let label = name_chars_from(tag, 0) as int;
    if label >= 1 && label < tag.len() && tag[label] == ':' && is_version_text(tag.skip(label + 1)) {
        tag.skip(label + 1)
    } else {
        tag
    }
}

/// A run of name characters with no name character behind it is the whole
/// run from its start.
pub proof fn lemma_name_chars_from(s: Seq<char>, start: int, end: int)
    requires
        0 <= start <= end <= s.len(),
        forall|k: int| start <= k < end ==> is_name_char(#[trigger] s[k]),
        end == s.len() || !is_name_char(s[end]),
    ensures
        name_chars_from(s, start) == end - start,
    decreases end - start,
{
    if start < end {
        lemma_name_chars_from(s, start + 1, end);
    }
}

/// A label, a colon and a version stand for the version.
pub proof fn lemma_version_of_labelled(label: Seq<char>, version: Seq<char>)
    requires
        label.len() > 0,
        forall|k: int| 0 <= k < label.len() ==> is_name_char(#[trigger] label[k]),
        is_version_text(version),
    ensures
        version_of(label.push(':') + version) == version,
{
    let tag = label.push(':') + version;
    let colon = label.len() as int;
    assert(tag[colon] == ':');
    assert forall|k: int| 0 <= k < colon implies is_name_char(#[trigger] tag[k]) by {
        assert(tag[k] == label[k]);
    }
    lemma_name_chars_from(tag, 0, colon);
    assert(tag.skip(colon + 1) =~= version);
}

/// A tag that is a version, or that holds no colon, stands for itself.
pub proof fn lemma_version_of_plain(tag: Seq<char>)
    requires
        is_version_text(tag) || !tag.contains(':'),
    ensures
        version_of(tag) == tag,
{
    let label = name_chars_from(tag, 0) as int;
    if is_version_text(tag) {
        if tag.len() > 0 {
            assert(is_digit(tag[0]) || tag[0] == '.');
        }
    } else if 0 <= label < tag.len() && tag[label] == ':' {
        assert(tag.contains(':'));
    }
}

/// A required field of an entry of the list of included documents.
#[derive(Debug, Clone, Copy, PartialEq, Eq)]
pub enum IncludeField {
    Project,
    File,
    Ref,
}

/// An entry of the list of included documents that lacks a required field,
/// or holds something other than a text in it.
#[derive(Debug, Clone, Copy, PartialEq, Eq)]
pub struct MalformedIncludeError {
    pub field: IncludeField,
}

/// Why a pipeline gave no list of versions.
#[derive(Debug, Clone, PartialEq, Eq)]
pub enum MatrixError {
    /// The text is not a document.
    InvalidDocument,
    /// The path leads nowhere.
    Lookup(LookupError),
    MalformedInclude(MalformedIncludeError),
    /// The node at the path is no sequence.
    NotASequence,
    /// The element at this position of the sequence is no text.
    NotAString(usize),
}

/// What a `MatrixError` says.
pub ghost enum MatrixFailure {
    InvalidDocument,
    Lookup(LookupFailure),
    MalformedInclude(IncludeField),
    NotASequence,
    NotAString(nat),
}

impl View for MatrixError {
    type V = MatrixFailure;

    open spec fn view(&self) -> MatrixFailure {
        match self {
            MatrixError::InvalidDocument => MatrixFailure::InvalidDocument,
            MatrixError::Lookup(e) => MatrixFailure::Lookup(e@),
            MatrixError::MalformedInclude(e) => MatrixFailure::MalformedInclude(e.field),
            MatrixError::NotASequence => MatrixFailure::NotASequence,
            MatrixError::NotAString(at) => MatrixFailure::NotAString(*at as nat),
        }
    }
}

/// What a list of versions, or the error in its place, says.
pub open spec fn outcome(r: Result<Vec<String>, MatrixError>) -> Result<Seq<Seq<char>>, MatrixFailure> {
    match r {
        Ok(list) => Ok(texts(list@)),
        Err(e) => Err(e@),
    }
}

/// Whether `at` is the first position of `items` that holds no text.
pub open spec fn is_first_non_text(items: Seq<Node>, at: int) -> bool {
    0 <= at < items.len() && items[at].text() is None && forall|j: int|
        0 <= j < at ==> (#[trigger] items[j]).text() is Some
}

/// The versions that a node lists: the node is a sequence, each element a
/// text, and each text is read by `version_of`. Order and repetitions stay.
pub open spec fn versions_in(node: Node) -> Result<Seq<Seq<char>>, MatrixFailure> {
    match node.items() {
        None => Err(MatrixFailure::NotASequence),
        Some(items) => if exists|at: int| is_first_non_text(items, at) {
            Err(MatrixFailure::NotAString((choose|at: int| is_first_non_text(items, at)) as nat))
        } else {
            Ok(items.map_values(|item: Node| version_of(item.text().unwrap())))
        },
    }
}

/// The versions listed at `path` under `root`.
pub open spec fn matrix_at(root: Node, path: Seq<char>) -> Result<Seq<Seq<char>>, MatrixFailure> {
    match node_at(root, path) {
        Ok(node) => versions_in(node),
        Err(failure) => Err(MatrixFailure::Lookup(failure)),
    }
}

/// The versions listed at `path` in a document given as text.
pub open spec fn matrix_in_text(document: Option<Node>, path: Seq<char>) -> Result<
    Seq<Seq<char>>,
    MatrixFailure,
> {
    match document {
        Some(root) => matrix_at(root, path),
        None => Err(MatrixFailure::InvalidDocument),
    }
}

/// The version that `tag` names.
pub fn version_of_tag(tag: &str) -> (version: String)
    ensures
        version@ == version_of(tag@),
{
    let chars = chars_of(tag);
    let n = chars.len();
    let mut label: usize = 0;
    while label < n && name_char(chars[label])
        invariant
            label <= n == chars@.len(),
            name_chars_from(chars@, 0) == label + name_chars_from(chars@, label as int),
        decreases n - label,
    {
        label += 1;
    }
    if label >= 1 && label < n && chars[label] == ':' && label + 1 < n {
        let mut i: usize = label + 1;
        while i < n && (digit(chars[i]) || chars[i] == '.')
            invariant
                label + 1 <= i <= n == chars@.len(),
                forall|k: int| label + 1 <= k < i ==> is_digit(#[trigger] chars@[k]) || chars@[k] == '.',
            decreases n - i,
        {
            i += 1;
        }
        let ghost rest = chars@.skip(label + 1);
        if i == n {
            assert(is_version_text(rest)) by {
                assert forall|k: int| 0 <= k < rest.len() implies is_digit(#[trigger] rest[k]) || rest[k] == '.' by {
                    assert(rest[k] == chars@[label + 1 + k]);
                }
            }
            assert(rest =~= chars@.subrange(label + 1, n as int));
            return string_of(&chars, label + 1, n);
        }
        assert(!is_version_text(rest)) by {
            assert(rest[i - (label + 1)] == chars@[i as int]);
        }
    } else {
        assert(label >= 1 && label < n && chars@[label as int] == ':' ==> !is_version_text(chars@.skip(label + 1)));
    }
    tag.to_owned()
}

/// The versions that a node of a pipeline lists.
///
/// Fails where the node is no sequence, and where an element of it is no
/// text: the error names the first such element.
pub fn get_list_of_version_from_matrix(matrix_value: &Node) -> (r: Result<Vec<String>, MatrixError>)
    ensures
        outcome(r) == versions_in(*matrix_value),
{
    match matrix_value.as_sequence() {
        None => Err(MatrixError::NotASequence),
        Some(items) => {
            let mut versions: Vec<String> = Vec::new();
            let mut i: usize = 0;
            while i < items.len()
                invariant
                    i <= items@.len(),
                    matrix_value.items() == Some(items@),
                    versions@.len() == i,
                    forall|j: int| 0 <= j < i ==> (#[trigger] items@[j]).text() is Some,
                    forall|j: int|
                        0 <= j < i ==> (#[trigger] versions@[j])@ == version_of(items@[j].text().unwrap()),
                decreases items@.len() - i,
            {
                match items[i].as_str() {
                    None => {
                        proof {
                            assert(is_first_non_text(items@, i as int));
                            let chosen = choose|at: int| is_first_non_text(items@, at);
                            assert(is_first_non_text(items@, chosen));
                            assert(chosen == i);
                        }
                        return Err(MatrixError::NotAString(i));
                    },
                    Some(tag) => {
                        versions.push(version_of_tag(tag));
                    },
                }
                i += 1;
            }
            proof {
                assert forall|at: int| !is_first_non_text(items@, at) by {}
                assert(texts(versions@) =~= items@.map_values(|item: Node| version_of(item.text().unwrap())));
            }
            Ok(versions)
        },
    }
}

/// The versions listed at `path_matrix` under `map`.
pub fn walk_matrix(map: &Node, path_matrix: &str) -> (r: Result<Vec<String>, MatrixError>)
    ensures
        outcome(r) == matrix_at(*map, path_matrix@),
{
    match resolve(map, path_matrix) {
        Ok(node) => get_list_of_version_from_matrix(node),
        Err(e) => Err(MatrixError::Lookup(e)),
    }
}

/// The versions listed at `path_matrix` in a document given as YAML text.
pub fn get_included_matrix(raw_included: &str, path_matrix: &str) -> (r: Result<Vec<String>, MatrixError>)
    ensures
        outcome(r) == matrix_in_text(yaml_document(raw_included@), path_matrix@),
{
    match parse_document(raw_included) {
        Some(root) => walk_matrix(&root, path_matrix),
        None => Err(MatrixError::InvalidDocument),
    }
}

/// What the collaborator that fetches documents is asked for: a file of a
/// project on a host, at a reference where one is given.
#[derive(Debug, Clone, PartialEq, Eq)]
pub struct FetchRequest {
    pub gitlab_base_host: String,
    pub project: String,
    pub file: String,
    pub reference: Option<String>,
}

/// What a `FetchRequest` holds.
pub ghost struct Fetch {
    pub host: Seq<char>,
    pub project: Seq<char>,
    pub file: Seq<char>,
    pub reference: Option<Seq<char>>,
}

impl View for FetchRequest {
    type V = Fetch;

    open spec fn view(&self) -> Fetch {
        Fetch {
            host: self.gitlab_base_host@,
            project: self.project@,
            file: self.file@,
            reference: match self.reference {
                Some(reference) => Some(reference@),
                None => None,
            },
        }
    }
}

/// An entry of a pipeline's list of included documents: the document is
/// the file `file` of the project `project`, at the reference `reference`.
#[derive(Debug, Clone, PartialEq, Eq)]
pub struct IncludeFromCi {
    pub project: String,
    pub file: String,
    pub reference: String,
    pub gitlab_base_host: String,
}

/// The text under `key` of an entry, where the entry has the key and a text
/// under it.
pub open spec fn required_text(field: Node, key: Seq<char>) -> Option<Seq<char>> {
    match field.child(key) {
        Some(value) => value.text(),
        None => None,
    }
}

/// The project, the file and the reference that an entry names, or the
/// first of the three that it lacks.
pub open spec fn include_fields(field: Node) -> Result<(Seq<char>, Seq<char>, Seq<char>), IncludeField> {
    match required_text(field, "project"@) {
        None => Err(IncludeField::Project),
        Some(project) => match required_text(field, "file"@) {
            None => Err(IncludeField::File),
            Some(file) => match required_text(field, "ref"@) {
                None => Err(IncludeField::Ref),
                Some(reference) => Ok((project, file, reference)),
            },
        },
    }
}

/// `s` with every `/` written as `%2F`, and nothing else changed.
pub open spec fn escape_slashes(s: Seq<char>) -> Seq<char>
    decreases s.len(),
{
    if s.len() == 0 {
        s
    } else if s.last() == '/' {
        escape_slashes(s.drop_last()) + seq!['%', '2', 'F']
    } else {
        escape_slashes(s.drop_last()).push(s.last())
    }
}

/// An escaped text holds no `/`; a text without `/` is its own escape.
pub proof fn lemma_escape_slashes(s: Seq<char>)
    ensures
        !escape_slashes(s).contains('/'),
        !s.contains('/') ==> escape_slashes(s) == s,
    decreases s.len(),
{
    let escaped = escape_slashes(s);
    if s.len() > 0 {
        let front = escape_slashes(s.drop_last());
        lemma_escape_slashes(s.drop_last());
        if escaped.contains('/') {
            let k = choose|k: int| 0 <= k < escaped.len() && escaped[k] == '/';
            if k < front.len() {
                assert(front[k] == '/');
            }
        }
        if !s.contains('/') {
            assert(s[s.len() - 1] != '/');
            if s.drop_last().contains('/') {
                let k = choose|k: int| 0 <= k < s.drop_last().len() && s.drop_last()[k] == '/';
                assert(s[k] == '/');
            }
            assert(s.drop_last().push(s.last()) =~= s);
        }
    }
}

/// `s` without one leading `/`.
pub open spec fn strip_leading_slash(s: Seq<char>) -> Seq<char> {
    if s.len() > 0 && s[0] == '/' {
        s.skip(1)
    } else {
        s
    }
}

/// What is fetched for an entry: the project and the file with their
/// slashes escaped, the file without its leading slash, at the entry's
/// reference.
pub open spec fn include_fetch(host: Seq<char>, fields: (Seq<char>, Seq<char>, Seq<char>)) -> Fetch {
    Fetch {
        host,
        project: escape_slashes(fields.0),
        file: escape_slashes(strip_leading_slash(fields.1)),
        reference: Some(fields.2),
    }
}

/// The path of the entry at `index` of the list of included documents.
pub open spec fn include_path(index: nat) -> Seq<char> {
    "include["@ + digits_of(index) + "]"@
}

/// The next thing to do for a list of versions.
#[derive(Debug, PartialEq, Eq)]
pub enum MatrixStep {
    /// The list, or why there is none.
    Done(Result<Vec<String>, MatrixError>),
    /// The list stands in another document, which is to be fetched and
    /// handed to `get_included_matrix`.
    Fetch(FetchRequest),
}

/// What a `MatrixStep` says.
pub ghost enum MatrixPlan {
    Done(Result<Seq<Seq<char>>, MatrixFailure>),
    Fetch(Fetch),
}

impl View for MatrixStep {
    type V = MatrixPlan;

    open spec fn view(&self) -> MatrixPlan {
        match self {
            MatrixStep::Done(r) => MatrixPlan::Done(outcome(*r)),
            MatrixStep::Fetch(request) => MatrixPlan::Fetch(request@),
        }
    }
}

/// The next thing to do for the list at `path` of the document `root`.
/// Without an index the list is read from `root`. With one, the entry at
/// that index of the list of included documents is looked up and read: a
/// path that fails and an entry that lacks a field end the work, and
/// nothing is fetched; else the document that the entry names is to be
/// fetched.
pub open spec fn matrix_plan(root: Node, path: Seq<char>, include_index: Option<usize>, host: Seq<char>) -> MatrixPlan {
    match include_index {
        None => MatrixPlan::Done(matrix_at(root, path)),
        Some(index) => match node_at(root, include_path(index as nat)) {
            Err(failure) => MatrixPlan::Done(Err(MatrixFailure::Lookup(failure))),
            Ok(entry) => match include_fields(entry) {
                Err(field) => MatrixPlan::Done(Err(MatrixFailure::MalformedInclude(field))),
                Ok(fields) => MatrixPlan::Fetch(include_fetch(host, fields)),
            },
        },
    }
}

/// The next thing to do for the list at `path` of a pipeline given as text.
pub open spec fn matrix_plan_of_text(
    document: Option<Node>,
    path: Seq<char>,
    include_index: Option<usize>,
    host: Seq<char>,
) -> MatrixPlan {
    match document {
        Some(root) => matrix_plan(root, path, include_index, host),
        None => MatrixPlan::Done(Err(MatrixFailure::InvalidDocument)),
    }
}

/// An entry that lacks its reference ends the work with a malformed entry:
/// nothing is fetched for it.
pub proof fn lemma_missing_ref_is_malformed(root: Node, path: Seq<char>, index: usize, host: Seq<char>)
    requires
        node_at(root, include_path(index as nat)) matches Ok(entry) && required_text(entry, "ref"@) is None,
    ensures
        matrix_plan(root, path, Some(index), host) matches MatrixPlan::Done(Err(MatrixFailure::MalformedInclude(_))),
{
}

/// The text under `key` of an entry.
fn read_required<'a>(field: &'a Node, key: &str) -> (r: Option<&'a str>)
    ensures
        match r {
            Some(text) => required_text(*field, key@) == Some(text@),
            None => required_text(*field, key@) is None,
        },
{
    match field.get(key) {
        Some(value) => value.as_str(),
        None => None,
    }
}

/// `s` with every `/` written as `%2F`.
pub fn escape(s: &str) -> (r: String)
    ensures
        r@ == escape_slashes(s@),
{
    let chars = chars_of(s);
    let mut r = String::new();
    let mut i: usize = 0;
    while i < chars.len()
        invariant
            i <= chars@.len(),
            r@ == escape_slashes(chars@.take(i as int)),
        decreases chars@.len() - i,
    {
        proof {
            assert(chars@.take(i + 1).drop_last() =~= chars@.take(i as int));
        }
        if chars[i] == '/' {
            let ghost held = r@;
            r.push('%');
            r.push('2');
            r.push('F');
            assert(r@ =~= held + seq!['%', '2', 'F']);
        } else {
            r.push(chars[i]);
        }
        i += 1;
    }
    assert(chars@.take(i as int) =~= chars@);
    r
}

impl IncludeFromCi {
    /// Reads an entry of the list of included documents. The entry must
    /// hold a text under each of `project`, `file` and `ref`.
    pub fn new(field: &Node, gitlab_base_host: &str) -> (r: Result<IncludeFromCi, MalformedIncludeError>)
        ensures
            match r {
                Ok(entry) => include_fields(*field) == Ok::<_, IncludeField>(
                    (entry.project@, entry.file@, entry.reference@),
                ) && entry.gitlab_base_host@ == gitlab_base_host@,
                Err(e) => include_fields(*field) == Err::<(Seq<char>, Seq<char>, Seq<char>), _>(e.field),
            },
    {
        let project = match read_required(field, "project") {
            Some(text) => text,
            None => {
                return Err(MalformedIncludeError { field: IncludeField::Project });
            },
        };
        let file = match read_required(field, "file") {
            Some(text) => text,
            None => {
                return Err(MalformedIncludeError { field: IncludeField::File });
            },
        };
        let reference = match read_required(field, "ref") {
            Some(text) => text,
            None => {
                return Err(MalformedIncludeError { field: IncludeField::Ref });
            },
        };
        Ok(
            IncludeFromCi {
                project: project.to_owned(),
                file: file.to_owned(),
                reference: reference.to_owned(),
                gitlab_base_host: gitlab_base_host.to_owned(),
            },
        )
    }

    /// What is to be fetched for this entry.
    pub fn fetch(&self) -> (r: FetchRequest)
        ensures
            r@ == include_fetch(self.gitlab_base_host@, (self.project@, self.file@, self.reference@)),
    {
        let chars = chars_of(self.file.as_str());
        let file = if chars.len() > 0 && chars[0] == '/' {
            assert(chars@.skip(1) =~= chars@.subrange(1, chars@.len() as int));
            string_of(&chars, 1, chars.len())
        } else {
            self.file.clone()
        };
        FetchRequest {
            gitlab_base_host: self.gitlab_base_host.clone(),
            project: escape(self.project.as_str()),
            file: escape(file.as_str()),
            reference: Some(self.reference.clone()),
        }
    }
}

/// The entry at `include_index` of the list of included documents of `root`.
pub fn include_entry<'a>(root: &'a Node, include_index: usize) -> (r: Result<&'a Node, LookupError>)
    ensures
        match r {
            Ok(node) => node_at(*root, include_path(include_index as nat)) == Ok::<Node, LookupFailure>(*node),
            Err(e) => node_at(*root, include_path(include_index as nat)) == Err::<Node, LookupFailure>(e@),
        },
        match r {
            Ok(node) => step_into(*root, ("include"@, Some(include_index as nat))) == Ok::<Node, LookupFault>(*node),
            Err(e) => step_into(*root, ("include"@, Some(include_index as nat))) == Err::<Node, LookupFault>(
                e.fault,
            ) && e.position == 0,
        },
{
    let mut path = "include[".to_owned();
    path.append(decimal_text(include_index).as_str());
    path.append("]");
    proof {
        lemma_include_path(*root, include_index as nat);
    }
    resolve(root, path.as_str())
}

/// The next thing to do for the list at `path_matrix` of the document
/// `root`.
pub fn plan_matrix(root: &Node, path_matrix: &str, include_index: Option<usize>, gitlab_base_host: &str) -> (step:
    MatrixStep)
    ensures
        step@ == matrix_plan(*root, path_matrix@, include_index, gitlab_base_host@),
{
    match include_index {
        None => MatrixStep::Done(walk_matrix(root, path_matrix)),
        Some(index) => match include_entry(root, index) {
            Err(e) => MatrixStep::Done(Err(MatrixError::Lookup(e))),
            Ok(field) => match IncludeFromCi::new(field, gitlab_base_host) {
                Err(e) => MatrixStep::Done(Err(MatrixError::MalformedInclude(e))),
                Ok(entry) => MatrixStep::Fetch(entry.fetch()),
            },
        },
    }
}

/// The next thing to do for the list at `path_matrix` of a pipeline.
///
/// Where the list stands in the pipeline itself, the step holds it. Where
/// the configuration says that it stands in an included document, the step
/// holds what is to be fetched; the text that comes back goes to
/// `get_included_matrix`.
pub fn get_matrix(pipeline: &str, path_matrix: &str, include_index: Option<usize>, gitlab_base_host: &str) -> (step:
    MatrixStep)
    ensures
        step@ == matrix_plan_of_text(yaml_document(pipeline@), path_matrix@, include_index, gitlab_base_host@),
{
    match parse_document(pipeline) {
        Some(root) => plan_matrix(&root, path_matrix, include_index, gitlab_base_host),
        None => MatrixStep::Done(Err(MatrixError::InvalidDocument)),
    }
}

/// Walking a list of steps and then another is walking the two in a row:
/// where the first walk fails, the whole fails at that step; where it
/// arrives, the second walk goes on from there, and its steps are counted
/// on from those of the first.
pub proof fn lemma_walk_joined(node: Node, first: Seq<(Seq<char>, Option<nat>)>, second: Seq<
    (Seq<char>, Option<nat>),
>)
    ensures
        walk(node, first + second) == match walk(node, first) {
            Err(failure) => Err::<Node, (nat, LookupFault)>(failure),
            Ok(reached) => match walk(reached, second) {
                Ok(found) => Ok(found),
                Err((position, fault)) => Err((position + first.len(), fault)),
            },
        },
    decreases first.len(),
{
    if first.len() == 0 {
        assert(first + second =~= second);
    } else {
        assert((first + second).drop_first() =~= first.drop_first() + second);
        match step_into(node, first[0]) {
            Ok(next) => {
                lemma_walk_joined(next, first.drop_first(), second);
            },
            Err(_) => {},
        }
    }
}

/// A path that is one field name leads to the value under that key: the
/// name holds no dot and does not end in `]`.
pub proof fn lemma_field_path(root: Node, name: Seq<char>)
    requires
        !name.contains('.'),
        name.len() == 0 || name.last() != ']',
    ensures
        path_steps(name) == seq![(name, None::<nat>)],
        walk(root, path_steps(name)) == match field_of(root, name) {
            Ok(value) => Ok::<Node, (nat, LookupFault)>(value),
            Err(fault) => Err((0nat, fault)),
        },
{
    crate::text::lemma_split_whole(name, '.');
    crate::path::lemma_step_of_plain(name);
    let steps = path_steps(name);
    assert(steps =~= seq![(name, None::<nat>)]);
    assert(steps.drop_first() =~= Seq::<(Seq<char>, Option<nat>)>::empty());
    assert(steps[0] == (name, None::<nat>));
    match step_into(root, steps[0]) {
        Ok(value) => {
            assert(walk(value, steps.drop_first()) == Ok::<Node, (nat, LookupFault)>(value));
        },
        Err(_) => {},
    }
}

/// A path that is one field name with an index in brackets leads to the
/// element at that index of the sequence under that key, whatever
/// characters but a dot the name holds.
pub proof fn lemma_indexed_path(root: Node, name: Seq<char>, index: nat)
    requires
        name.len() > 0,
        !name.contains('.'),
    ensures
        path_steps(name.push('[') + digits_of(index).push(']')) == seq![(name, Some(index))],
        walk(root, path_steps(name.push('[') + digits_of(index).push(']'))) == match step_into(
            root,
            (name, Some(index)),
        ) {
            Ok(element) => Ok::<Node, (nat, LookupFault)>(element),
            Err(fault) => Err((0nat, fault)),
        },
{
    let digits = digits_of(index);
    let path = name.push('[') + digits.push(']');
    crate::path::lemma_digits_of(index);
    crate::path::lemma_step_of_indexed(name, index);
    assert(!path.contains('.')) by {
        if path.contains('.') {
            let k = choose|k: int| 0 <= k < path.len() && path[k] == '.';
            if k < name.len() {
                assert(name[k] == '.');
            } else if name.len() < k < path.len() - 1 {
                assert(path[k] == digits[k - name.len() - 1]);
            }
        }
    }
    crate::text::lemma_split_whole(path, '.');
    let steps = path_steps(path);
    assert(steps =~= seq![(name, Some(index))]);
    assert(steps.drop_first() =~= Seq::<(Seq<char>, Option<nat>)>::empty());
    assert(steps[0] == (name, Some(index)));
    match step_into(root, steps[0]) {
        Ok(element) => {
            assert(walk(element, steps.drop_first()) == Ok::<Node, (nat, LookupFault)>(element));
        },
        Err(_) => {},
    }
}

/// The path of an entry of the list of included documents is one step: to
/// the element at `index` of the sequence under `include`.
pub proof fn lemma_include_path(root: Node, index: nat)
    ensures
        path_steps(include_path(index)) == seq![("include"@, Some(index))],
        walk(root, path_steps(include_path(index))) == match step_into(root, ("include"@, Some(index))) {
            Ok(entry) => Ok::<Node, (nat, LookupFault)>(entry),
            Err(fault) => Err((0nat, fault)),
        },
{
    reveal_strlit("include");
    reveal_strlit("include[");
    reveal_strlit("]");
    let name = "include"@;
    assert(include_path(index) =~= name.push('[') + digits_of(index).push(']'));
    assert(!name.contains('.')) by {
        if name.contains('.') {
            let k = choose|k: int| 0 <= k < name.len() && name[k] == '.';
        }
    }
    lemma_indexed_path(root, name, index);
}

/// Why a list that stands in an included document could not be read: the
/// work on the documents failed, or the fetch did, with its own error.
#[derive(Debug, PartialEq, Eq)]
pub enum IncludeError<E> {
    Matrix(MatrixError),
    Fetch(E),
}

/// The list at `path` of the document that the entry at `include_index` of
/// the list of included documents of `root` names.
///
/// The entry is looked up and read first. Only where it is there and holds
/// its three fields is `fetch` called, once, with the request for the
/// document; an error of `fetch` is handed on as it is.
pub fn resolve_via_include<E, F: FnOnce(FetchRequest) -> Result<String, E>>(
    root: &Node,
    include_index: usize,
    path: &str,
    gitlab_base_host: &str,
    fetch: F,
) -> (r: Result<Vec<String>, IncludeError<E>>)
    requires
        forall|request: FetchRequest|
            matrix_plan(*root, path@, Some(include_index), gitlab_base_host@) == MatrixPlan::Fetch(request@)
                ==> fetch.requires((request,)),
    ensures
        match matrix_plan(*root, path@, Some(include_index), gitlab_base_host@) {
            MatrixPlan::Done(result) => match r {
                Ok(list) => result == Ok::<_, MatrixFailure>(texts(list@)),
                Err(IncludeError::Matrix(e)) => result == Err::<Seq<Seq<char>>, _>(e@),
                Err(IncludeError::Fetch(_)) => false,
            },
            MatrixPlan::Fetch(wanted) => exists|request: FetchRequest, fetched: Result<String, E>|
                request@ == wanted && fetch.ensures((request,), fetched) && match fetched {
                    Ok(text) => match r {
                        Ok(list) => matrix_in_text(yaml_document(text@), path@) == Ok::<_, MatrixFailure>(texts(list@)),
                        Err(IncludeError::Matrix(e)) => matrix_in_text(yaml_document(text@), path@) == Err::<
                            Seq<Seq<char>>,
                            _,
                        >(e@),
                        Err(IncludeError::Fetch(_)) => false,
                    },
                    Err(e) => r == Err::<Vec<String>, _>(IncludeError::Fetch(e)),
                },
        },
{
    match plan_matrix(root, path, Some(include_index), gitlab_base_host) {
        MatrixStep::Done(Ok(list)) => Ok(list),
        MatrixStep::Done(Err(e)) => Err(IncludeError::Matrix(e)),
        MatrixStep::Fetch(request) => {
            match fetch(request) {
                Ok(text) => match get_included_matrix(text.as_str(), path) {
                    Ok(list) => Ok(list),
                    Err(e) => Err(IncludeError::Matrix(e)),
                },
                Err(e) => Err(IncludeError::Fetch(e)),
            }
        },
    }
}

} // verus!
