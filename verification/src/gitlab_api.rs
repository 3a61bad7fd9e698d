//! Addresses of the GitLab API that the reports are drawn from.

use crate::text::{
    free_of, holds, lemma_no_occurrence_joined, lemma_replace_first_behind, replace_first, replace_first_in, texts,
};
use vstd::prelude::*;

verus! {

/// A tag of a repository, as the API lists it.
#[derive(Debug, Clone, PartialEq, Eq)]
pub struct GitlabCommitApi {
    pub name: String,
}

/// The address of a file's raw content: the host, then the path with the
/// first `:projectId` replaced by the project and, after that, the first
/// `:filePath` replaced by the file.
pub open spec fn file_raw_url(host: Seq<char>, project_id: Seq<char>, file_path: Seq<char>) -> Seq<char> {
    replace_first(
        replace_first(
            host + "/api/v4/projects/:projectId/repository/files/:filePath/raw"@,
            ":projectId"@,
            project_id,
        ),
        ":filePath"@,
        file_path,
    )
}

/// The address of a project's list of tags.
pub open spec fn tags_url(host: Seq<char>, project_id: Seq<char>) -> Seq<char> {
    replace_first(host + "/api/v4/projects/:projectId/repository/tags"@, ":projectId"@, project_id)
}

/// Where the host holds no `:projectId`, the address of the tags is the
/// host and the path with the project in it.
pub proof fn lemma_tags_url(host: Seq<char>, project_id: Seq<char>)
    requires
        !holds(host, ":projectId"@),
    ensures
        tags_url(host, project_id) == host + "/api/v4/projects/"@ + project_id + "/repository/tags"@,
{
    let head = "/api/v4/projects/"@;
    let project = ":projectId"@;
    let tail = "/repository/tags"@;
    reveal_strlit("/api/v4/projects/:projectId/repository/tags");
    reveal_strlit("/api/v4/projects/");
    reveal_strlit(":projectId");
    reveal_strlit("/repository/tags");
    assert("/api/v4/projects/:projectId/repository/tags"@ =~= head + project + tail);
    assert(free_of(project, '/')) by {
        reveal_with_fuel(free_of, 12);
    }
    assert(free_of(head, ':')) by {
        reveal_with_fuel(free_of, 19);
    }
    lemma_replace_first_behind(host, head, project, tail, project_id);
    assert(host + "/api/v4/projects/:projectId/repository/tags"@ =~= host + head + project + tail);
}

/// Where neither the host nor the project holds a placeholder that is
/// still to be replaced, the address of a file is the host and the path
/// with the project and the file in it.
pub proof fn lemma_file_raw_url(host: Seq<char>, project_id: Seq<char>, file_path: Seq<char>)
    requires
        !holds(host, ":projectId"@),
        !holds(host, ":filePath"@),
        !holds(project_id, ":filePath"@),
    ensures
        file_raw_url(host, project_id, file_path) == host + "/api/v4/projects/"@ + project_id
            + "/repository/files/"@ + file_path + "/raw"@,
{
    let head = "/api/v4/projects/"@;
    let project = ":projectId"@;
    let middle = "/repository/files/"@;
    let file = ":filePath"@;
    let tail = "/raw"@;
    reveal_strlit("/api/v4/projects/:projectId/repository/files/:filePath/raw");
    reveal_strlit("/api/v4/projects/");
    reveal_strlit(":projectId");
    reveal_strlit("/repository/files/");
    reveal_strlit(":filePath");
    reveal_strlit("/raw");
    assert("/api/v4/projects/:projectId/repository/files/:filePath/raw"@ =~= head + project + (middle + file + tail));
    assert(free_of(project, '/')) by {
        reveal_with_fuel(free_of, 12);
    }
    assert(free_of(file, '/')) by {
        reveal_with_fuel(free_of, 11);
    }
    assert(free_of(head, ':')) by {
        reveal_with_fuel(free_of, 19);
    }
    assert(free_of(middle, ':')) by {
        reveal_with_fuel(free_of, 20);
    }
    lemma_replace_first_behind(host, head, project, middle + file + tail, project_id);
    let whole = host + "/api/v4/projects/:projectId/repository/files/:filePath/raw"@;
    assert(whole =~= host + head + project + (middle + file + tail));
    let with_project = replace_first(whole, project, project_id);
    assert(with_project == host + head + project_id + (middle + file + tail));
    lemma_no_occurrence_joined(host, head, project_id, file);
    lemma_replace_first_behind(host + head + project_id, middle, file, tail, file_path);
    assert(with_project =~= (host + head + project_id) + middle + file + tail);
}

/// The address of the raw content of a file of a project.
pub fn get_file_raw(gitlab_base_host: &str, project_id: &str, file_path: &str) -> (url: String)
    ensures
        url@ == file_raw_url(gitlab_base_host@, project_id@, file_path@),
{
    let mut api_url = gitlab_base_host.to_owned();
    api_url.append("/api/v4/projects/:projectId/repository/files/:filePath/raw");
    let with_project = replace_first_in(api_url.as_str(), ":projectId", project_id);
    replace_first_in(with_project.as_str(), ":filePath", file_path)
}

/// The address of the list of a project's tags.
pub fn get_tags(gitlab_base_host: &str, project_id: &str) -> (url: String)
    ensures
        url@ == tags_url(gitlab_base_host@, project_id@),
{
    let mut api_url = gitlab_base_host.to_owned();
    api_url.append("/api/v4/projects/:projectId/repository/tags");
    replace_first_in(api_url.as_str(), ":projectId", project_id)
}

/// The names of the tags that the API listed.
pub open spec fn names_of(tags: Seq<GitlabCommitApi>) -> Seq<Seq<char>> {
    tags.map_values(|tag: GitlabCommitApi| tag.name@)
}

/// The names of `tags`, in their order.
pub fn tag_names(tags: &Vec<GitlabCommitApi>) -> (names: Vec<String>)
    ensures
        texts(names@) == names_of(tags@),
{
    let mut names: Vec<String> = Vec::new();
    let mut i: usize = 0;
    while i < tags.len()
        invariant
            i <= tags@.len(),
            texts(names@) == names_of(tags@.take(i as int)),
        decreases tags@.len() - i,
    {
        let ghost before = texts(names@);
        names.push(tags[i].name.clone());
        assert(texts(names@) =~= before.push(tags@[i as int].name@));
        assert(names_of(tags@.take(i + 1)) =~= names_of(tags@.take(i as int)).push(tags@[i as int].name@));
        i += 1;
    }
    assert(tags@.take(i as int) =~= tags@);
    names
}

} // verus!
