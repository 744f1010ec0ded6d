//! Build artifacts tracked as annotated git tags named `artifact/<name>`,
//! whose messages carry the artifact's metadata as JSON. This module names
//! the tags, says which git invocations store, read, list and remove them,
//! and reads git's answers; the host runs git and (de)serialises the JSON.

use vstd::prelude::*;
use vstd::string::*;

use crate::text::{chars_of, lines, lines_of, trim, trimmed, views};

verus! {

/// Metadata stored with an artifact tag.
#[derive(Debug, Clone, PartialEq)]
pub struct ArtifactMetadata {
    pub name: String,
    pub stage: String,
    pub commit_sha: String,
    pub created_at: String,
    pub size_bytes: u64,
    pub description: String,
}

/// Tracks build artifacts as git tags with metadata.
pub struct ArtifactTracker {
    repo_path: String,
}

/// The tag of the artifact `name`.
pub open spec fn artifact_tag(name: Seq<char>) -> Seq<char> {
    "artifact/"@ + name
}

/// Position of the first blank line separator (`\n\n`) in `s`, or `s.len()`
/// when it has none.
pub open spec fn separator_position(s: Seq<char>) -> nat
    decreases s.len(),
{
    if s.len() < 2 {
        s.len()
    } else if s[0] == '\n' && s[1] == '\n' {
        0
    } else {
        1 + separator_position(s.drop_first())
    }
}

pub proof fn lemma_separator_fits(s: Seq<char>)
    ensures
        separator_position(s) <= s.len(),
        separator_position(s) < s.len() ==> separator_position(s) + 2 <= s.len(),
    decreases s.len(),
{
    if s.len() >= 2 && !(s[0] == '\n' && s[1] == '\n') {
        lemma_separator_fits(s.drop_first());
    }
}

/// The pieces of `s` between `\n\n` separators, as `str::split("\n\n")`
/// yields them.
pub open spec fn paragraphs(s: Seq<char>) -> Seq<Seq<char>>
    decreases s.len(),
{
    if separator_position(s) >= s.len() {
        seq![s]
    } else {
        proof {
            lemma_separator_fits(s);
        }
        seq![s.take(separator_position(s) as int)] + paragraphs(
            s.skip(separator_position(s) + 2int),
        )
    }
}

proof fn lemma_separator_position(t: Seq<char>, k: int)
    requires
        0 <= k <= t.len(),
        forall|i: int| 0 <= i < k && i + 1 < t.len() ==> !(#[trigger] t[i] == '\n' && t[i + 1] == '\n'),
        k == t.len() || (k + 1 < t.len() && t[k] == '\n' && t[k + 1] == '\n'),
    ensures
        k < t.len() ==> separator_position(t) == k,
        k == t.len() ==> separator_position(t) >= t.len(),
    decreases k,
{
    if t.len() < 2 {
    } else if k > 0 {
        assert(!(t[0] == '\n' && t[1] == '\n'));
        let rest = t.drop_first();
        assert forall|i: int| 0 <= i < k - 1 && i + 1 < rest.len() implies !(#[trigger] rest[i] == '\n' && rest[i + 1] == '\n') by {
            assert(rest[i] == t[i + 1]);
            assert(rest[i + 1] == t[i + 2]);
        }
        lemma_separator_position(rest, k - 1);
    }
}

/// The git arguments made of `parts`.
pub open spec fn arguments(args: Vec<String>) -> Seq<Seq<char>> {
    views(args@)
}

fn argument_list(parts: &[&str]) -> (args: Vec<String>)
    ensures
        views(args@) == parts@.map_values(|p: &str| p@),
{
    let mut args: Vec<String> = Vec::new();
    let n = parts.len();
    let mut i: usize = 0;
    while i < n
        invariant
            n == parts@.len(),
            i <= n,
            views(args@) == parts@.take(i as int).map_values(|p: &str| p@),
        decreases n - i,
    {
        let ghost before = args@;
        args.push(parts[i].to_owned());
        proof {
            assert(parts@.take(i + 1) =~= parts@.take(i as int).push(parts@[i as int]));
            assert(views(args@) =~= views(before).push(parts@[i as int]@));
            assert(views(args@) =~= parts@.take(i + 1).map_values(|p: &str| p@));
        }
        i = i + 1;
    }
    assert(parts@.take(n as int) =~= parts@);
    args
}

impl ArtifactTracker {
    /// The path of the repository the tracker works in.
    pub closed spec fn repo(&self) -> Seq<char> {
        self.repo_path@
    }

    /// Create a new artifact tracker for the given repo.
    pub fn new(repo_path: &str) -> (tracker: ArtifactTracker)
        ensures
            tracker.repo() == repo_path@,
    {
        ArtifactTracker { repo_path: repo_path.to_owned() }
    }

    /// The path of the repository the tracker works in.
    pub fn repo_path(&self) -> (path: &str)
        ensures
            path@ == self.repo(),
    {
        self.repo_path.as_str()
    }

    /// The tag of the artifact `name`: `artifact/<name>`.
    pub fn tag_name(name: &str) -> (tag: String)
        ensures
            tag@ == artifact_tag(name@),
    {
        let mut tag = String::from_str("artifact/");
        tag.append(name);
        tag
    }

    /// The git arguments that store an artifact: an annotated tag
    /// `artifact/<name>` on the artifact's commit, with `message` (the
    /// metadata as JSON) as the tag's message.
    pub fn store(metadata: &ArtifactMetadata, message: &str) -> (args: Vec<String>)
        ensures
            arguments(args) == seq![
                "tag"@,
                "-a"@,
                artifact_tag(metadata.name@),
                metadata.commit_sha@,
                "-m"@,
                message@,
            ],
    {
        let tag = Self::tag_name(metadata.name.as_str());
        let args = argument_list(
            &[
                "tag",
                "-a",
                tag.as_str(),
                metadata.commit_sha.as_str(),
                "-m",
                message,
            ],
        );
        assert(arguments(args) =~= seq![
            "tag"@,
            "-a"@,
            artifact_tag(metadata.name@),
            metadata.commit_sha@,
            "-m"@,
            message@,
        ]);
        args
    }

    /// The git arguments that print the message of the artifact `name`'s tag.
    pub fn get(name: &str) -> (args: Vec<String>)
        ensures
            arguments(args) == seq!["tag"@, "-l"@, artifact_tag(name@), "--format=%(contents)"@],
    {
        let tag = Self::tag_name(name);
        let args = argument_list(&["tag", "-l", tag.as_str(), "--format=%(contents)"]);
        assert(arguments(args) =~= seq![
            "tag"@,
            "-l"@,
            artifact_tag(name@),
            "--format=%(contents)"@,
        ]);
        args
    }

    /// The git arguments that print the messages of all artifact tags.
    pub fn list() -> (args: Vec<String>)
        ensures
            arguments(args) == seq!["tag"@, "-l"@, "artifact/*"@, "--format=%(contents)"@],
    {
        let args = argument_list(&["tag", "-l", "artifact/*", "--format=%(contents)"]);
        assert(arguments(args) =~= seq!["tag"@, "-l"@, "artifact/*"@, "--format=%(contents)"@]);
        args
    }

    /// The git arguments that remove the artifact `name`'s tag.
    pub fn remove(name: &str) -> (args: Vec<String>)
        ensures
            arguments(args) == seq!["tag"@, "-d"@, artifact_tag(name@)],
    {
        let tag = Self::tag_name(name);
        let args = argument_list(&["tag", "-d", tag.as_str()]);
        assert(arguments(args) =~= seq!["tag"@, "-d"@, artifact_tag(name@)]);
        args
    }

    /// The git arguments that list the artifact `name`'s tag if it exists.
    /// Git takes the tag as a pattern; `listing_shows_tag` reads the answer.
    pub fn exists_query(name: &str) -> (args: Vec<String>)
        ensures
            arguments(args) == seq!["tag"@, "-l"@, artifact_tag(name@)],
    {
        let tag = Self::tag_name(name);
        let args = argument_list(&["tag", "-l", tag.as_str()]);
        assert(arguments(args) =~= seq!["tag"@, "-l"@, artifact_tag(name@)]);
        args
    }

    /// Whether the output of the `exists_query` listing shows the artifact
    /// `name`'s own tag: some line of it is exactly `artifact/<name>`. Git
    /// reads the queried tag as a pattern, so other tags that the pattern
    /// matches may be listed too; they do not count.
    pub fn listing_shows_tag(output: &str, name: &str) -> (shown: bool)
        ensures
            shown == lines_of(output@).contains(artifact_tag(name@)),
    {
        let tag = Self::tag_name(name);
        let listed = lines(output);
        let n = listed.len();
        let mut i: usize = 0;
        while i < n
            invariant
                n == listed@.len(),
                i <= n,
                views(listed@) == lines_of(output@),
                tag@ == artifact_tag(name@),
                forall|k: int| 0 <= k < i ==> #[trigger] views(listed@)[k] != tag@,
            decreases n - i,
        {
            if listed[i] == tag {
                assert(views(listed@)[i as int] == tag@);
                return true;
            }
            i = i + 1;
        }
        false
    }

    /// The metadata texts in the output of the `list` invocation: the pieces
    /// between blank lines, each trimmed.
    pub fn listed_metadata(output: &str) -> (texts: Vec<String>)
        ensures
            views(texts@) == paragraphs(output@).map_values(|p: Seq<char>| trimmed(p)),
    {
        let v = chars_of(output);
        let n = v.len();
        let mut texts: Vec<String> = Vec::new();
        let mut pos: usize = 0;
        let mut done = false;
        proof {
            assert(output@.skip(0) =~= output@);
        }
        while !done
            invariant
                v@ == output@,
                n == v@.len(),
                pos <= n,
                !done ==> paragraphs(output@).map_values(|p: Seq<char>| trimmed(p)) == views(
                    texts@,
                ) + paragraphs(output@.skip(pos as int)).map_values(|p: Seq<char>| trimmed(p)),
                done ==> paragraphs(output@).map_values(|p: Seq<char>| trimmed(p)) == views(
                    texts@,
                ),
            decreases n - pos + if done {
                0int
            } else {
                1int
            },
        {
            let mut k: usize = pos;
            while k < n && !(v[k] == '\n' && k + 1 < n && v[k + 1] == '\n')
                invariant
                    v@ == output@,
                    n == v@.len(),
                    pos <= k <= n,
                    forall|i: int|
                        pos <= i < k && i + 1 < n ==> !(#[trigger] output@[i] == '\n' && output@[i
                            + 1] == '\n'),
                decreases n - k,
            {
                k = k + 1;
            }
            let ghost t = output@.skip(pos as int);
            let ghost rest_before = paragraphs(t).map_values(|p: Seq<char>| trimmed(p));
            proof {
                assert forall|i: int|
                    0 <= i < k - pos && i + 1 < t.len() implies !(#[trigger] t[i] == '\n' && t[i
                    + 1] == '\n') by {
                    assert(t[i] == output@[i + pos]);
                    assert(t[i + 1] == output@[i + pos + 1]);
                }
                if k < n {
                    assert(t[k - pos] == output@[k as int]);
                    assert(t[k - pos + 1] == output@[k + 1]);
                }
                lemma_separator_position(t, k - pos);
            }
            let ghost before = texts@;
            let piece = trim(output.substring_char(pos, k));
            texts.push(piece);
            proof {
                assert(output@.subrange(pos as int, k as int) =~= t.take(k - pos));
                assert(views(texts@) =~= views(before).push(trimmed(t.take(k - pos))));
            }
            if k == n {
                proof {
                    assert(t.take(k - pos) =~= t);
                    assert(rest_before =~= seq![trimmed(t)]);
                    assert(views(texts@) =~= views(before) + rest_before);
                }
                done = true;
            } else {
                proof {
                    assert(t.skip(k - pos + 2) =~= output@.skip(k + 2));
                    assert(rest_before =~= seq![trimmed(t.take(k - pos))] + paragraphs(
                        output@.skip(k + 2),
                    ).map_values(|p: Seq<char>| trimmed(p)));
                    assert(views(before) + rest_before =~= views(texts@) + paragraphs(
                        output@.skip(k + 2),
                    ).map_values(|p: Seq<char>| trimmed(p)));
                }
                pos = k + 2;
            }
        }
        texts
    }
}

} // verus!
