use vstd::prelude::*;
use crate::config::should_skip;
use crate::config::skipped_dir_name;
use crate::models::AnalysisResults;
use crate::models::FileAnalysis;
use crate::models::FoundFile;
use crate::models::FsNode;
use crate::models::LanguageEntry;
use crate::models::LanguageStats;
use crate::models::StatsError;
use crate::models::content_view;
use crate::models::found_view;
use crate::models::path_view;
use crate::models::records_view;
use crate::models::registry_view;
use crate::models::stats_table_view;
use crate::utils::clone_content;
use crate::utils::clone_path;
use crate::utils::str_eq;

verus! {

/// Number of newline bytes (0x0A) in a byte sequence.
pub open spec fn newline_count(s: Seq<u8>) -> nat
    decreases s.len(),
{
    if s.len() == 0 {
        0
    } else {
        newline_count(s.drop_last()) + if s.last() == 10u8 {
            1nat
        } else {
            0nat
        }
    }
}

/// Number of lines in a text given as bytes: every newline byte ends a line,
/// and a non-empty tail without a trailing newline counts as one final line.
pub open spec fn line_count_of(s: Seq<u8>) -> nat {
    newline_count(s) + if s.len() > 0 && s.last() != 10u8 {
        1nat
    } else {
        0nat
    }
}

proof fn lemma_newline_count_le(s: Seq<u8>)
    ensures
        newline_count(s) <= s.len(),
    decreases s.len(),
{
    if s.len() > 0 {
        lemma_newline_count_le(s.drop_last());
    }
}

/// Count the lines of a text file's contents, given as raw bytes.
pub fn count_lines(content: &[u8]) -> (n: usize)
    ensures
        n == line_count_of(content@),
{
    let mut newlines: usize = 0;
    let mut i: usize = 0;
    while i < content.len()
        invariant
            i <= content@.len(),
            newlines == newline_count(content@.subrange(0, i as int)),
            newlines <= i,
        decreases content@.len() - i,
    {
        proof {
            assert(content@.subrange(0, i + 1).drop_last() =~= content@.subrange(0, i as int));
            assert(content@.subrange(0, i + 1).last() == content@[i as int]);
        }
        if content[i] == 10u8 {
            newlines = newlines + 1;
        }
        i = i + 1;
    }
    proof {
        assert(content@.subrange(0, content@.len() as int) =~= content@);
    }
    if content.len() > 0 && content[content.len() - 1] != 10u8 {
        proof {
            lemma_newline_count_le(content@.drop_last());
        }
        newlines + 1
    } else {
        newlines
    }
}

/// The extension of a file name: the characters after the final dot, or
/// `None` when the name holds no dot at all.
pub open spec fn extension_of(name: Seq<char>) -> Option<Seq<char>>
    decreases name.len(),
{
    if name.len() == 0 {
        None
    } else if name.last() == '.' {
        Some(Seq::empty())
    } else {
        match extension_of(name.drop_last()) {
            None => None,
            Some(e) => Some(e.push(name.last())),
        }
    }
}

proof fn lemma_extension_after_dot(name: Seq<char>, j: int)
    requires
        0 <= j < name.len(),
        name[j] == '.',
        forall|k: int| j < k < name.len() ==> name[k] != '.',
    ensures
        extension_of(name) == Some(name.subrange(j + 1, name.len() as int)),
    decreases name.len(),
{
    if j == name.len() - 1 {
        assert(name.last() == '.');
        assert(name.subrange(j + 1, name.len() as int) =~= Seq::<char>::empty());
    } else {
        assert(name.last() != '.');
        lemma_extension_after_dot(name.drop_last(), j);
        assert(name.drop_last().subrange(j + 1, name.len() - 1).push(name.last()) =~= name.subrange(
        j + 1, name.len() as int));
    }
}

proof fn lemma_extension_no_dot(name: Seq<char>)
    requires
        forall|k: int| 0 <= k < name.len() ==> name[k] != '.',
    ensures
        extension_of(name) is None,
    decreases name.len(),
{
    if name.len() > 0 {
        lemma_extension_no_dot(name.drop_last());
    }
}

/// Extract a file name's extension: the characters after the final dot.
#[verifier::loop_isolation(false)]
pub fn file_extension(name: &str) -> (r: Option<String>)
    ensures
        match r {
            Some(e) => extension_of(name@) == Some(e@),
            None => extension_of(name@) is None,
        },
{
    let n = name.unicode_len();
    let mut i: usize = n;
    while i > 0
        invariant
            0 <= i <= n,
            forall|k: int| i <= k < n ==> name@[k] != '.',
        decreases i,
    {
        if name.get_char(i - 1) == '.' {
            let e = name.substring_char(i, n);
            proof {
                lemma_extension_after_dot(name@, i - 1);
            }
            return Some(e.to_owned());
        }
        i = i - 1;
    }
    proof {
        lemma_extension_no_dot(name@);
    }
    None
}

/// The language registered for an extension: the first table entry whose
/// extension matches, or `None` when no entry does.
pub open spec fn spec_language_for(reg: Seq<(Seq<char>, Seq<char>)>, ext: Seq<char>) -> Option<
    Seq<char>,
>
    decreases reg.len(),
{
    if reg.len() == 0 {
        None
    } else if reg[0].1 == ext {
        Some(reg[0].0)
    } else {
        spec_language_for(reg.drop_first(), ext)
    }
}

/// Look up the language registered for a file extension by scanning the
/// table in order.
#[verifier::loop_isolation(false)]
pub fn language_for_extension(languages: &Vec<LanguageEntry>, ext: &str) -> (r:
    Option<String>)
    ensures
        match r {
            Some(l) => spec_language_for(registry_view(languages@), ext@) == Some(
                l@,
            ),
            None => spec_language_for(registry_view(languages@), ext@) is None,
        },
{
    let ghost rv = registry_view(languages@);
    proof {
        assert(rv.subrange(0, rv.len() as int) =~= rv);
    }
    let mut i: usize = 0;
    while i < languages.len()
        invariant
            0 <= i <= rv.len(),
            rv.len() == languages@.len(),
            spec_language_for(rv, ext@) == spec_language_for(
                rv.subrange(i as int, rv.len() as int),
                ext@,
            ),
        decreases rv.len() - i,
    {
        if str_eq(languages[i].extension.as_str(), ext) {
            proof {
                assert(rv.subrange(i as int, rv.len() as int)[0] == rv[i as int]);
            }
            return Some(languages[i].language.clone());
        }
        proof {
            assert(rv.subrange(i as int, rv.len() as int).drop_first() =~= rv.subrange(
                i + 1,
                rv.len() as int,
            ));
        }
        i = i + 1;
    }
    None
}

/// Whether the traverser admits a file of this name: its extension exists
/// and matches some registered language.
pub open spec fn admitted_file(reg: Seq<(Seq<char>, Seq<char>)>, name: Seq<char>) -> bool {
    match extension_of(name) {
        Some(e) => spec_language_for(reg, e) is Some,
        None => false,
    }
}

/// The files that traversal yields beneath one node, depth first: a
/// skipped directory contributes nothing, a directory that is kept
/// contributes its entries in order under the extended path, and a file
/// contributes itself exactly when its extension is registered.
pub open spec fn files_beneath(
    node: FsNode,
    reg: Seq<(Seq<char>, Seq<char>)>,
    prefix: Seq<Seq<char>>,
) -> Seq<(Seq<Seq<char>>, Option<Seq<u8>>)>
    decreases node,
{
    match node {
        FsNode::File { name, content } => {
            if admitted_file(reg, name@) {
                seq![(prefix.push(name@), content_view(content))]
            } else {
                Seq::empty()
            }
        },
        FsNode::Dir { name, entries } => {
            if skipped_dir_name(name@) {
                Seq::empty()
            } else {
                files_beneath_all(entries@, reg, prefix.push(name@))
            }
        },
    }
}

/// The files that traversal yields beneath a row of sibling nodes.
pub open spec fn files_beneath_all(
    entries: Seq<FsNode>,
    reg: Seq<(Seq<char>, Seq<char>)>,
    prefix: Seq<Seq<char>>,
) -> Seq<(Seq<Seq<char>>, Option<Seq<u8>>)>
    decreases entries,
{
    if entries.len() == 0 {
        Seq::empty()
    } else {
        files_beneath(entries[0], reg, prefix) + files_beneath_all(
            entries.drop_first(),
            reg,
            prefix,
        )
    }
}

proof fn lemma_files_beneath_all_push(
    entries: Seq<FsNode>,
    node: FsNode,
    reg: Seq<(Seq<char>, Seq<char>)>,
    prefix: Seq<Seq<char>>,
)
    ensures
        files_beneath_all(entries.push(node), reg, prefix) == files_beneath_all(
            entries,
            reg,
            prefix,
        ) + files_beneath(node, reg, prefix),
    decreases entries.len(),
{
    if entries.len() == 0 {
        let p = entries.push(node);
        assert(p.len() == 1);
        assert(p[0] == node);
        assert(p.drop_first() =~= Seq::<FsNode>::empty());
        assert(files_beneath_all(p, reg, prefix) == files_beneath(node, reg, prefix)
            + files_beneath_all(p.drop_first(), reg, prefix));
        assert(files_beneath_all(p.drop_first(), reg, prefix) == Seq::<
            (Seq<Seq<char>>, Option<Seq<u8>>),
        >::empty());
        assert(files_beneath_all(entries, reg, prefix) == Seq::<
            (Seq<Seq<char>>, Option<Seq<u8>>),
        >::empty());
        assert(files_beneath_all(p, reg, prefix) =~= files_beneath_all(entries, reg, prefix)
            + files_beneath(node, reg, prefix));
    } else {
        assert(entries.push(node).drop_first() =~= entries.drop_first().push(node));
        assert(entries.push(node)[0] == entries[0]);
        lemma_files_beneath_all_push(entries.drop_first(), node, reg, prefix);
        assert(files_beneath_all(entries.push(node), reg, prefix) == files_beneath(
            entries[0],
            reg,
            prefix,
        ) + (files_beneath_all(entries.drop_first(), reg, prefix) + files_beneath(
            node,
            reg,
            prefix,
        )));
        assert(files_beneath_all(entries.push(node), reg, prefix) =~= files_beneath_all(
            entries,
            reg,
            prefix,
        ) + files_beneath(node, reg, prefix));
    }
}

/// Walk one node depth first and append every admitted file to `out`.
#[verifier::loop_isolation(false)]
fn collect_files(
    node: &FsNode,
    languages: &Vec<LanguageEntry>,
    prefix: &Vec<String>,
    out: &mut Vec<FoundFile>,
)
    ensures
        found_view(final(out)@) == found_view(old(out)@)
            + files_beneath(
            *node,
            registry_view(languages@),
            path_view(prefix@),
        ),
    decreases *node,
{
    let ghost reg = registry_view(languages@);
    match node {
        FsNode::File { name, content } => {
            let admitted = match file_extension(name.as_str()) {
                Some(e) => language_for_extension(languages, e.as_str()).is_some(),
                None => false,
            };
            if admitted {
                let mut path = clone_path(prefix);
                path.push(name.clone());
                proof {
                    assert(path_view(path@) =~= path_view(
                        prefix@,
                    ).push(name@));
                }
                let file = FoundFile {
                    path,
                    content: clone_content(content),
                };
                out.push(file);
                proof {
                    assert(found_view(out@) =~= found_view(
                        old(out)@,
                    ) + files_beneath(*node, reg, path_view(prefix@)));
                }
            } else {
                proof {
                    assert(found_view(out@) =~= found_view(
                        old(out)@,
                    ) + files_beneath(*node, reg, path_view(prefix@)));
                }
            }
        },
        FsNode::Dir { name, entries } => {
            if !should_skip(name.as_str(), true) {
                let mut child_prefix = clone_path(prefix);
                child_prefix.push(name.clone());
                let ghost child = path_view(prefix@).push(name@);
                proof {
                    assert(path_view(child_prefix@) =~= child);
                }
                let mut i: usize = 0;
                while i < entries.len()
                    invariant
                        0 <= i <= entries@.len(),
                        path_view(child_prefix@) == child,
                        found_view(out@) == found_view(old(out)@)
                            + files_beneath_all(entries@.subrange(0, i as int), reg, child),
                    decreases entries@.len() - i,
                {
                    proof {
                        assert(decreases_to!(*node => entries@[i as int]));
                    }
                    collect_files(&entries[i], languages, &child_prefix, out);
                    proof {
                        assert(entries@.subrange(0, i + 1) =~= entries@.subrange(
                            0,
                            i as int,
                        ).push(entries@[i as int]));
                        lemma_files_beneath_all_push(
                            entries@.subrange(0, i as int),
                            entries@[i as int],
                            reg,
                            child,
                        );
                    }
                    i = i + 1;
                }
                proof {
                    assert(entries@.subrange(0, entries@.len() as int) =~= entries@);
                }
            } else {
                proof {
                    assert(found_view(out@) =~= found_view(
                        old(out)@,
                    ) + files_beneath(*node, reg, path_view(prefix@)));
                }
            }
        },
    }
}

/// The list of files to analyze beneath a root directory.
///
/// The root must be an existing directory: `root` is `None` when the path
/// did not exist, and a plain file is rejected the same way. `root_display`
/// is the path as the caller wrote it, used in the error. On success the
/// result is exactly the depth-first traversal with pruning.
pub fn get_files(
    root: Option<&FsNode>,
    languages: &Vec<LanguageEntry>,
    root_display: &str,
) -> (r: Result<Vec<FoundFile>, StatsError>)
    ensures
        match root {
            Some(node) => {
                if node is Dir {
                    match r {
                        Ok(files) => found_view(files@) == files_beneath(
                            *node,
                            registry_view(languages@),
                            Seq::empty(),
                        ),
                        Err(_) => false,
                    }
                } else {
                    r matches Err(StatsError::DirectoryNotFound(p)) && p@
                        == root_display@
                }
            },
            None => r matches Err(StatsError::DirectoryNotFound(p)) && p@
                == root_display@,
        },
{
    match root {
        None => Err(StatsError::DirectoryNotFound(root_display.to_owned())),
        Some(node) => {
            match node {
                FsNode::File { .. } => {
                    Err(StatsError::DirectoryNotFound(root_display.to_owned()))
                },
                FsNode::Dir { .. } => {
                    let prefix: Vec<String> = Vec::new();
                    let mut out: Vec<FoundFile> = Vec::new();
                    proof {
                        assert(path_view(prefix@) =~= Seq::<Seq<char>>::empty());
                        assert(found_view(out@) =~= Seq::<
                            (Seq<Seq<char>>, Option<Seq<u8>>),
                        >::empty());
                    }
                    collect_files(node, languages, &prefix, &mut out);
                    Ok(out)
                },
            }
        },
    }
}

/// What analyzing one file yields: its language and line count, or `None`
/// when the name has no registered extension or the file was unreadable.
pub open spec fn spec_analyze(
    reg: Seq<(Seq<char>, Seq<char>)>,
    name: Seq<char>,
    content: Option<Seq<u8>>,
) -> Option<(Seq<char>, nat)> {
    match extension_of(name) {
        None => None,
        Some(e) => match spec_language_for(reg, e) {
            None => None,
            Some(lang) => match content {
                None => None,
                Some(bytes) => Some((lang, line_count_of(bytes))),
            },
        },
    }
}

/// Analyze a single file: classify it by its extension against the
/// language table and count its lines. Yields `None` for a file without a
/// registered extension, and for one whose contents could not be read.
pub fn analyze_file(
    file: &FoundFile,
    languages: &Vec<LanguageEntry>,
) -> (r: Option<FileAnalysis>)
    requires
        file.path@.len() > 0,
    ensures
        match r {
            Some(fa) => spec_analyze(
                registry_view(languages@),
                file.path@.last()@,
                content_view(file.content),
            ) == Some((fa.language@, fa.line_count as nat)),
            None => spec_analyze(
                registry_view(languages@),
                file.path@.last()@,
                content_view(file.content),
            ) is None,
        },
{
    let name = &file.path[file.path.len() - 1];
    let ext = match file_extension(name.as_str()) {
        Some(e) => e,
        None => { return None; },
    };
    let language = match language_for_extension(languages, ext.as_str()) {
        Some(l) => l,
        None => { return None; },
    };
    match &file.content {
        None => None,
        Some(bytes) => {
            let line_count = count_lines(bytes.as_slice());
            Some(FileAnalysis { language, line_count })
        },
    }
}

/// Total line count of a collection of (language, lines) records.
pub open spec fn line_total(recs: Seq<(Seq<char>, nat)>) -> nat
    decreases recs.len(),
{
    if recs.len() == 0 {
        0
    } else {
        line_total(recs.drop_last()) + recs.last().1
    }
}

/// Fold one record into a per-language table: the first entry of the
/// record's language gains one file and the record's lines; a language not
/// yet present is appended with one file.
pub open spec fn spec_bump(
    stats: Seq<(Seq<char>, (nat, nat))>,
    lang: Seq<char>,
    lines: nat,
) -> Seq<(Seq<char>, (nat, nat))>
    decreases stats.len(),
{
    if stats.len() == 0 {
        seq![(lang, (1nat, lines))]
    } else if stats.first().0 == lang {
        seq![(stats.first().0, ((stats.first().1.0 + 1) as nat, (stats.first().1.1 + lines) as nat))]
            + stats.drop_first()
    } else {
        seq![stats.first()] + spec_bump(stats.drop_first(), lang, lines)
    }
}

/// The per-language table that folding a collection of records produces,
/// record by record from the left.
pub open spec fn spec_stats(recs: Seq<(Seq<char>, nat)>) -> Seq<(Seq<char>, (nat, nat))>
    decreases recs.len(),
{
    if recs.len() == 0 {
        Seq::empty()
    } else {
        spec_bump(spec_stats(recs.drop_last()), recs.last().0, recs.last().1)
    }
}

/// Sum of the file counts over a per-language table.
pub open spec fn sum_files(stats: Seq<(Seq<char>, (nat, nat))>) -> nat
    decreases stats.len(),
{
    if stats.len() == 0 {
        0
    } else {
        stats.first().1.0 + sum_files(stats.drop_first())
    }
}

/// Sum of the line counts over a per-language table.
pub open spec fn sum_lines(stats: Seq<(Seq<char>, (nat, nat))>) -> nat
    decreases stats.len(),
{
    if stats.len() == 0 {
        0
    } else {
        stats.first().1.1 + sum_lines(stats.drop_first())
    }
}

/// The (files, lines) entry of a language in a per-language table.
pub open spec fn find_stat(stats: Seq<(Seq<char>, (nat, nat))>, lang: Seq<char>) -> Option<
    (nat, nat),
>
    decreases stats.len(),
{
    if stats.len() == 0 {
        None
    } else if stats.first().0 == lang {
        Some(stats.first().1)
    } else {
        find_stat(stats.drop_first(), lang)
    }
}

/// How many records carry this language.
pub open spec fn count_lang(recs: Seq<(Seq<char>, nat)>, lang: Seq<char>) -> nat
    decreases recs.len(),
{
    if recs.len() == 0 {
        0
    } else {
        count_lang(recs.drop_last(), lang) + if recs.last().0 == lang {
            1nat
        } else {
            0nat
        }
    }
}

/// How many lines the records of this language carry together.
pub open spec fn lines_lang(recs: Seq<(Seq<char>, nat)>, lang: Seq<char>) -> nat
    decreases recs.len(),
{
    if recs.len() == 0 {
        0
    } else {
        lines_lang(recs.drop_last(), lang) + if recs.last().0 == lang {
            recs.last().1
        } else {
            0nat
        }
    }
}

proof fn lemma_bump_sums(stats: Seq<(Seq<char>, (nat, nat))>, lang: Seq<char>, lines: nat)
    ensures
        sum_files(spec_bump(stats, lang, lines)) == sum_files(stats) + 1,
        sum_lines(spec_bump(stats, lang, lines)) == sum_lines(stats) + lines,
    decreases stats.len(),
{
    let b = spec_bump(stats, lang, lines);
    if stats.len() == 0 {
        assert(b.first() == (lang, (1nat, lines)));
        assert(b.drop_first() =~= Seq::<(Seq<char>, (nat, nat))>::empty());
        assert(b.len() == 1);
        assert(sum_files(b) == b.first().1.0 + sum_files(b.drop_first()));
        assert(sum_files(b.drop_first()) == 0);
        assert(sum_files(b) == 1);
        assert(sum_files(stats) == 0);
        assert(sum_lines(b) == b.first().1.1 + sum_lines(b.drop_first()));
        assert(sum_lines(b.drop_first()) == 0);
        assert(sum_lines(stats) == 0);
    } else if stats.first().0 == lang {
        assert(b.first() == (
            stats.first().0,
            ((stats.first().1.0 + 1) as nat, (stats.first().1.1 + lines) as nat),
        ));
        assert(b.drop_first() =~= stats.drop_first());
        assert(sum_files(b) == b.first().1.0 + sum_files(b.drop_first()));
        assert(sum_lines(b) == b.first().1.1 + sum_lines(b.drop_first()));
    } else {
        lemma_bump_sums(stats.drop_first(), lang, lines);
        assert(b.first() == stats.first());
        assert(b.drop_first() =~= spec_bump(stats.drop_first(), lang, lines));
        assert(sum_files(b) == b.first().1.0 + sum_files(b.drop_first()));
        assert(sum_lines(b) == b.first().1.1 + sum_lines(b.drop_first()));
    }
}

/// Folding records gives one file per record and all their lines together:
/// the bucket sums of the table equal the record count and the line total.
pub proof fn lemma_spec_stats_sums(recs: Seq<(Seq<char>, nat)>)
    ensures
        sum_files(spec_stats(recs)) == recs.len(),
        sum_lines(spec_stats(recs)) == line_total(recs),
    decreases recs.len(),
{
    if recs.len() > 0 {
        lemma_spec_stats_sums(recs.drop_last());
        lemma_bump_sums(spec_stats(recs.drop_last()), recs.last().0, recs.last().1);
    }
}

proof fn lemma_elem_le_sums(stats: Seq<(Seq<char>, (nat, nat))>, k: int)
    requires
        0 <= k < stats.len(),
    ensures
        stats[k].1.0 <= sum_files(stats),
        stats[k].1.1 <= sum_lines(stats),
    decreases k,
{
    if k == 0 {
        assert(stats[0] == stats.first());
    } else {
        lemma_elem_le_sums(stats.drop_first(), k - 1);
        assert(stats.drop_first()[k - 1] == stats[k]);
    }
}

proof fn lemma_line_total_prefix(recs: Seq<(Seq<char>, nat)>, i: int)
    requires
        0 <= i <= recs.len(),
    ensures
        line_total(recs.subrange(0, i)) <= line_total(recs),
    decreases recs.len() - i,
{
    if i == recs.len() {
        assert(recs.subrange(0, i) =~= recs);
    } else {
        assert(recs.subrange(0, i + 1).drop_last() =~= recs.subrange(0, i));
        assert(recs.subrange(0, i + 1).last() == recs[i]);
        lemma_line_total_prefix(recs, i + 1);
    }
}

proof fn lemma_bump_found(
    stats: Seq<(Seq<char>, (nat, nat))>,
    j: int,
    lang: Seq<char>,
    lines: nat,
)
    requires
        0 <= j < stats.len(),
        stats[j].0 == lang,
        forall|k: int| 0 <= k < j ==> stats[k].0 != lang,
    ensures
        spec_bump(stats, lang, lines) == stats.update(
            j,
            (lang, ((stats[j].1.0 + 1) as nat, (stats[j].1.1 + lines) as nat)),
        ),
    decreases j,
{
    let e = (lang, ((stats[j].1.0 + 1) as nat, (stats[j].1.1 + lines) as nat));
    if j == 0 {
        assert(stats.first().0 == lang);
        assert(spec_bump(stats, lang, lines) =~= stats.update(0, e));
    } else {
        assert(stats.first().0 != lang);
        assert(stats.drop_first()[j - 1] == stats[j]);
        assert(forall|k: int| 0 <= k < j - 1 ==> stats.drop_first()[k] == stats[k + 1]);
        lemma_bump_found(stats.drop_first(), j - 1, lang, lines);
        assert(seq![stats.first()] + stats.drop_first().update(j - 1, e) =~= stats.update(j, e));
    }
}

proof fn lemma_bump_absent(stats: Seq<(Seq<char>, (nat, nat))>, lang: Seq<char>, lines: nat)
    requires
        forall|k: int| 0 <= k < stats.len() ==> stats[k].0 != lang,
    ensures
        spec_bump(stats, lang, lines) == stats.push((lang, (1nat, lines))),
    decreases stats.len(),
{
    let e = (lang, (1nat, lines));
    if stats.len() == 0 {
        assert(spec_bump(stats, lang, lines) =~= stats.push(e));
    } else {
        assert(stats.first() == stats[0]);
        assert(forall|k: int| 0 <= k < stats.drop_first().len() ==> stats.drop_first()[k]
            == stats[k + 1]);
        lemma_bump_absent(stats.drop_first(), lang, lines);
        assert(seq![stats.first()] + stats.drop_first().push(e) =~= stats.push(e));
    }
}

/// Find the language's bucket: the index of the first entry whose name
/// matches, or `None` when no entry does.
#[verifier::loop_isolation(false)]
fn find_bucket(stats: &Vec<(String, LanguageStats)>, lang: &str) -> (r: Option<
    usize,
>)
    ensures
        match r {
            Some(j) => 0 <= j < stats@.len() && stats@[j as int].0@ == lang@ && forall|k: int|
                0 <= k < j ==> stats@[k].0@ != lang@,
            None => forall|k: int| 0 <= k < stats@.len() ==> stats@[k].0@ != lang@,
        },
{
    let mut j: usize = 0;
    while j < stats.len()
        invariant
            0 <= j <= stats@.len(),
            forall|k: int| 0 <= k < j ==> stats@[k].0@ != lang@,
        decreases stats@.len() - j,
    {
        if str_eq(stats[j].0.as_str(), lang) {
            return Some(j);
        }
        j = j + 1;
    }
    None
}

/// Aggregate individual file analyses into combined results.
///
/// Folds the records into per-language buckets in order of first
/// appearance, then derives the grand totals by summing the buckets, so
/// that the totals always equal the sums over the table.
#[verifier::loop_isolation(false)]
pub fn aggregate_results(file_analyses: Vec<FileAnalysis>) -> (r:
    AnalysisResults)
    requires
        line_total(records_view(file_analyses@)) <= usize::MAX,
    ensures
        r.stats_view() == spec_stats(records_view(file_analyses@)),
        r.total_files == sum_files(r.stats_view()),
        r.total_lines == sum_lines(r.stats_view()),
        r.total_files == file_analyses@.len(),
        r.total_lines == line_total(records_view(file_analyses@)),
{
    let ghost recs = records_view(file_analyses@);
    let mut stats: Vec<(String, LanguageStats)> = Vec::new();
    proof {
        assert(recs.subrange(0, 0) =~= Seq::<(Seq<char>, nat)>::empty());
        assert(stats_table_view(stats@) =~= Seq::<
            (Seq<char>, (nat, nat)),
        >::empty());
    }
    let mut i: usize = 0;
    while i < file_analyses.len()
        invariant
            0 <= i <= recs.len(),
            recs.len() == file_analyses@.len(),
            stats_table_view(stats@) == spec_stats(recs.subrange(0, i as int)),
        decreases recs.len() - i,
    {
        let ghost prefix = recs.subrange(0, i as int);
        let ghost table = stats_table_view(stats@);
        proof {
            assert(recs.subrange(0, i + 1).drop_last() =~= prefix);
            assert(recs.subrange(0, i + 1).last() == recs[i as int]);
            lemma_spec_stats_sums(prefix);
            lemma_line_total_prefix(recs, i + 1);
        }
        let rec = &file_analyses[i];
        proof {
            assert(recs[i as int] == (rec.language@, rec.line_count as nat));
        }
        match find_bucket(&stats, rec.language.as_str()) {
            Some(j) => {
                proof {
                    lemma_elem_le_sums(table, j as int);
                    lemma_bump_found(table, j as int, rec.language@, rec.line_count as nat);
                }
                let files0 = stats[j].1.files;
                let lines0 = stats[j].1.lines;
                stats[j] = (
                    rec.language.clone(),
                    LanguageStats {
                        files: files0 + 1,
                        lines: lines0 + rec.line_count,
                    },
                );
                proof {
                    assert(stats_table_view(stats@) =~= table.update(
                        j as int,
                        (rec.language@, ((files0 + 1) as nat, (lines0 + rec.line_count) as nat)),
                    ));
                }
            },
            None => {
                proof {
                    lemma_bump_absent(table, rec.language@, rec.line_count as nat);
                }
                stats.push(
                    (
                        rec.language.clone(),
                        LanguageStats { files: 1, lines: rec.line_count },
                    ),
                );
                proof {
                    assert(stats_table_view(stats@) =~= table.push(
                        (rec.language@, (1nat, rec.line_count as nat)),
                    ));
                }
            },
        }
        i = i + 1;
    }
    proof {
        assert(recs.subrange(0, recs.len() as int) =~= recs);
        lemma_spec_stats_sums(recs);
    }
    let ghost table = stats_table_view(stats@);
    let mut total_files: usize = 0;
    let mut total_lines: usize = 0;
    proof {
        assert(table.subrange(0, table.len() as int) =~= table);
    }
    let mut k: usize = 0;
    while k < stats.len()
        invariant
            0 <= k <= table.len(),
            table.len() == stats@.len(),
            table == stats_table_view(stats@),
            total_files + sum_files(table.subrange(k as int, table.len() as int)) == sum_files(
                table,
            ),
            total_lines + sum_lines(table.subrange(k as int, table.len() as int)) == sum_lines(
                table,
            ),
        decreases table.len() - k,
    {
        proof {
            assert(table.subrange(k as int, table.len() as int).first() == table[k as int]);
            assert(table.subrange(k as int, table.len() as int).drop_first() =~= table.subrange(
                k + 1,
                table.len() as int,
            ));
        }
        total_files = total_files + stats[k].1.files;
        total_lines = total_lines + stats[k].1.lines;
        k = k + 1;
    }
    proof {
        assert(table.subrange(table.len() as int, table.len() as int) =~= Seq::<
            (Seq<char>, (nat, nat)),
        >::empty());
    }
    AnalysisResults { stats, total_files, total_lines }
}

proof fn lemma_find_bump(
    stats: Seq<(Seq<char>, (nat, nat))>,
    bumped: Seq<char>,
    lines: nat,
    lang: Seq<char>,
)
    ensures
        find_stat(spec_bump(stats, bumped, lines), lang) == (if bumped == lang {
            match find_stat(stats, lang) {
                None => Some((1nat, lines)),
                Some(p) => Some((((p.0 + 1) as nat), ((p.1 + lines) as nat))),
            }
        } else {
            find_stat(stats, lang)
        }),
    decreases stats.len(),
{
    let b = spec_bump(stats, bumped, lines);
    if stats.len() == 0 {
        assert(b.first() == (bumped, (1nat, lines)));
        assert(b.drop_first() =~= Seq::<(Seq<char>, (nat, nat))>::empty());
        assert(find_stat(b, lang) == if b.first().0 == lang {
            Some(b.first().1)
        } else {
            find_stat(b.drop_first(), lang)
        });
        assert(find_stat(b.drop_first(), lang) is None);
    } else if stats.first().0 == bumped {
        assert(b.first() == (
            stats.first().0,
            ((stats.first().1.0 + 1) as nat, (stats.first().1.1 + lines) as nat),
        ));
        assert(b.drop_first() =~= stats.drop_first());
        assert(find_stat(b, lang) == if b.first().0 == lang {
            Some(b.first().1)
        } else {
            find_stat(b.drop_first(), lang)
        });
    } else {
        lemma_find_bump(stats.drop_first(), bumped, lines, lang);
        assert(b.first() == stats.first());
        assert(b.drop_first() =~= spec_bump(stats.drop_first(), bumped, lines));
        assert(find_stat(b, lang) == if b.first().0 == lang {
            Some(b.first().1)
        } else {
            find_stat(b.drop_first(), lang)
        });
    }
}

proof fn lemma_count_zero_lines(recs: Seq<(Seq<char>, nat)>, lang: Seq<char>)
    requires
        count_lang(recs, lang) == 0,
    ensures
        lines_lang(recs, lang) == 0,
    decreases recs.len(),
{
    if recs.len() > 0 {
        lemma_count_zero_lines(recs.drop_last(), lang);
    }
}

/// The folded table is exact: a language's bucket exists if and only if
/// some record carries the language, and then it holds exactly the number
/// of such records and the sum of their line counts.
pub proof fn lemma_stats_exact(recs: Seq<(Seq<char>, nat)>, lang: Seq<char>)
    ensures
        find_stat(spec_stats(recs), lang) == (if count_lang(recs, lang) == 0 {
            None
        } else {
            Some((count_lang(recs, lang), lines_lang(recs, lang)))
        }),
    decreases recs.len(),
{
    if recs.len() > 0 {
        lemma_stats_exact(recs.drop_last(), lang);
        lemma_find_bump(spec_stats(recs.drop_last()), recs.last().0, recs.last().1, lang);
        if count_lang(recs.drop_last(), lang) == 0 {
            lemma_count_zero_lines(recs.drop_last(), lang);
        }
    }
}

/// Whether some entry of the registry carries this language name.
pub open spec fn registry_has_language(reg: Seq<(Seq<char>, Seq<char>)>, lang: Seq<char>) -> bool {
    exists|i: int| 0 <= i < reg.len() && reg[i].0 == lang
}

proof fn lemma_language_for_in_registry(
    reg: Seq<(Seq<char>, Seq<char>)>,
    ext: Seq<char>,
    lang: Seq<char>,
)
    requires
        spec_language_for(reg, ext) == Some(lang),
    ensures
        registry_has_language(reg, lang),
    decreases reg.len(),
{
    if reg.len() > 0 {
        if reg[0].1 == ext {
            assert(reg[0].0 == lang);
        } else {
            lemma_language_for_in_registry(reg.drop_first(), ext, lang);
            let i = choose|i: int|
                0 <= i < reg.drop_first().len() && reg.drop_first()[i].0 == lang;
            assert(reg[i + 1].0 == lang);
        }
    }
}

/// Traversal yields no path beneath a pruned directory: every yielded
/// path extends the starting prefix, every directory segment beneath the
/// prefix is neither hidden nor in the exclusion set, and the file itself
/// carries a registered extension.
pub proof fn lemma_traversal_prunes(
    node: FsNode,
    reg: Seq<(Seq<char>, Seq<char>)>,
    prefix: Seq<Seq<char>>,
    i: int,
)
    requires
        0 <= i < files_beneath(node, reg, prefix).len(),
    ensures
        ({
            let p = files_beneath(node, reg, prefix)[i].0;
            &&& p.len() > prefix.len()
            &&& p.subrange(0, prefix.len() as int) == prefix
            &&& forall|k: int|
                prefix.len() <= k < p.len() - 1 ==> !skipped_dir_name(p[k])
            &&& admitted_file(reg, p.last())
        }),
    decreases node,
{
    match node {
        FsNode::File { name, content } => {
            let p = files_beneath(node, reg, prefix)[i].0;
            assert(p == prefix.push(name@));
            assert(p.subrange(0, prefix.len() as int) =~= prefix);
            assert(p.last() == name@);
        },
        FsNode::Dir { name, entries } => {
            let child = prefix.push(name@);
            lemma_traversal_prunes_all(entries@, reg, child, i);
            let p = files_beneath_all(entries@, reg, child)[i].0;
            assert(p.subrange(0, child.len() as int) == child);
            assert(forall|k: int|
                0 <= k < child.len() ==> p[k] == child[k]) by {
                assert(forall|k: int|
                    0 <= k < child.len() ==> p.subrange(0, child.len() as int)[k] == p[k]);
            }
            assert(p.subrange(0, prefix.len() as int) =~= prefix);
            assert(p[prefix.len() as int] == name@);
        },
    }
}

proof fn lemma_traversal_prunes_all(
    entries: Seq<FsNode>,
    reg: Seq<(Seq<char>, Seq<char>)>,
    prefix: Seq<Seq<char>>,
    i: int,
)
    requires
        0 <= i < files_beneath_all(entries, reg, prefix).len(),
    ensures
        ({
            let p = files_beneath_all(entries, reg, prefix)[i].0;
            &&& p.len() > prefix.len()
            &&& p.subrange(0, prefix.len() as int) == prefix
            &&& forall|k: int|
                prefix.len() <= k < p.len() - 1 ==> !skipped_dir_name(p[k])
            &&& admitted_file(reg, p.last())
        }),
    decreases entries,
{
    let a = files_beneath(entries[0], reg, prefix);
    let b = files_beneath_all(entries.drop_first(), reg, prefix);
    if i < a.len() {
        assert((a + b)[i] == a[i]);
        lemma_traversal_prunes(entries[0], reg, prefix, i);
    } else {
        assert((a + b)[i] == b[i - a.len()]);
        lemma_traversal_prunes_all(entries.drop_first(), reg, prefix, i - a.len());
    }
}

/// The (language, lines) records that analyzing a row of found files
/// yields, in order, skipping the files that analysis rejects.
pub open spec fn records_of_found(
    reg: Seq<(Seq<char>, Seq<char>)>,
    files: Seq<(Seq<Seq<char>>, Option<Seq<u8>>)>,
) -> Seq<(Seq<char>, nat)>
    decreases files.len(),
{
    if files.len() == 0 {
        Seq::empty()
    } else {
        records_of_found(reg, files.drop_last()) + match spec_analyze(
            reg,
            files.last().0.last(),
            files.last().1,
        ) {
            Some(rec) => seq![rec],
            None => Seq::empty(),
        }
    }
}

/// What the whole pipeline computes for an existing root directory.
pub open spec fn spec_run(
    node: FsNode,
    reg: Seq<(Seq<char>, Seq<char>)>,
) -> Seq<(Seq<char>, nat)> {
    records_of_found(reg, files_beneath(node, reg, Seq::empty()))
}

/// Run the whole pipeline: traverse the tree beneath the root, analyze
/// every admitted file, and aggregate the records into combined results.
///
/// Fails exactly when the root is missing (`None`) or not a directory,
/// with `DirectoryNotFound` carrying the path as given; nothing partial is
/// produced in that case.
#[verifier::loop_isolation(false)]
pub fn run_analysis(
    root: Option<&FsNode>,
    languages: &Vec<LanguageEntry>,
    root_display: &str,
) -> (r: Result<AnalysisResults, StatsError>)
    requires
        match root {
            Some(node) => node is Dir ==> line_total(
                spec_run(*node, registry_view(languages@)),
            ) <= usize::MAX,
            None => true,
        },
    ensures
        match root {
            Some(node) => {
                if node is Dir {
                    match r {
                        Ok(results) => {
                            let recs = spec_run(*node, registry_view(languages@));
                            &&& results.stats_view() == spec_stats(recs)
                            &&& results.total_files == sum_files(results.stats_view())
                            &&& results.total_lines == sum_lines(results.stats_view())
                            &&& results.total_files == recs.len()
                            &&& results.total_lines == line_total(recs)
                        },
                        Err(_) => false,
                    }
                } else {
                    r matches Err(StatsError::DirectoryNotFound(p)) && p@
                        == root_display@
                }
            },
            None => r matches Err(StatsError::DirectoryNotFound(p)) && p@
                == root_display@,
        },
{
    let ghost reg = registry_view(languages@);
    let files = match get_files(root, languages, root_display) {
        Ok(files) => files,
        Err(e) => { return Err(e); },
    };
    let ghost fv = found_view(files@);
    let mut records: Vec<FileAnalysis> = Vec::new();
    proof {
        assert(fv.subrange(0, 0) =~= Seq::<(Seq<Seq<char>>, Option<Seq<u8>>)>::empty());
        assert(records_view(records@) =~= Seq::<(Seq<char>, nat)>::empty());
    }
    let mut i: usize = 0;
    while i < files.len()
        invariant
            0 <= i <= fv.len(),
            fv.len() == files@.len(),
            records_view(records@) == records_of_found(
                reg,
                fv.subrange(0, i as int),
            ),
        decreases fv.len() - i,
    {
        proof {
            assert(fv.subrange(0, i + 1).drop_last() =~= fv.subrange(0, i as int));
            assert(fv.subrange(0, i + 1).last() == fv[i as int]);
            lemma_traversal_prunes(*root.unwrap(), reg, Seq::empty(), i as int);
            assert(fv[i as int].0 == path_view(files@[i as int].path@));
            assert(fv[i as int].0.last() == files@[i as int].path@.last()@);
        }
        match analyze_file(&files[i], languages) {
            Some(fa) => {
                records.push(fa);
                proof {
                    assert(records_view(records@) =~= records_of_found(
                        reg,
                        fv.subrange(0, i as int),
                    ).push((fa.language@, fa.line_count as nat)));
                    assert(records_of_found(reg, fv.subrange(0, i + 1)) =~= records_of_found(
                        reg,
                        fv.subrange(0, i as int),
                    ).push((fa.language@, fa.line_count as nat)));
                }
            },
            None => {
                proof {
                    assert(records_of_found(reg, fv.subrange(0, i + 1)) =~= records_of_found(
                        reg,
                        fv.subrange(0, i as int),
                    ));
                }
            },
        }
        i = i + 1;
    }
    proof {
        assert(fv.subrange(0, fv.len() as int) =~= fv);
    }
    let results = aggregate_results(records);
    Ok(results)
}

proof fn lemma_count_pos(recs: Seq<(Seq<char>, nat)>, lang: Seq<char>)
    requires
        count_lang(recs, lang) > 0,
    ensures
        exists|i: int| 0 <= i < recs.len() && recs[i].0 == lang,
    decreases recs.len(),
{
    if recs.last().0 == lang {
        assert(recs[recs.len() - 1].0 == lang);
    } else {
        lemma_count_pos(recs.drop_last(), lang);
        let i = choose|i: int| 0 <= i < recs.drop_last().len() && recs.drop_last()[i].0 == lang;
        assert(recs[i].0 == lang);
    }
}

proof fn lemma_records_registered(
    reg: Seq<(Seq<char>, Seq<char>)>,
    files: Seq<(Seq<Seq<char>>, Option<Seq<u8>>)>,
    i: int,
)
    requires
        0 <= i < records_of_found(reg, files).len(),
    ensures
        registry_has_language(reg, records_of_found(reg, files)[i].0),
    decreases files.len(),
{
    let a = records_of_found(reg, files.drop_last());
    if i < a.len() {
        lemma_records_registered(reg, files.drop_last(), i);
        assert(records_of_found(reg, files)[i] == a[i]);
    } else {
        match spec_analyze(reg, files.last().0.last(), files.last().1) {
            Some(rec) => {
                assert(records_of_found(reg, files)[i] == rec);
                match extension_of(files.last().0.last()) {
                    Some(e) => {
                        lemma_language_for_in_registry(reg, e, rec.0);
                    },
                    None => { assert(false); },
                }
            },
            None => { assert(false); },
        }
    }
}

/// A language never appears in the results unless the registry carries
/// it: every language the pipeline's table holds a bucket for is the name
/// of a registered language. A file whose extension matches no registered
/// language therefore contributes to no bucket at all.
pub proof fn lemma_only_registered_languages(
    node: FsNode,
    reg: Seq<(Seq<char>, Seq<char>)>,
    lang: Seq<char>,
)
    requires
        find_stat(spec_stats(spec_run(node, reg)), lang) is Some,
    ensures
        registry_has_language(reg, lang),
{
    let recs = spec_run(node, reg);
    lemma_stats_exact(recs, lang);
    lemma_count_pos(recs, lang);
    let i = choose|i: int| 0 <= i < recs.len() && recs[i].0 == lang;
    lemma_records_registered(reg, files_beneath(node, reg, Seq::empty()), i);
}

proof fn lemma_counts_remove(recs: Seq<(Seq<char>, nat)>, j: int, lang: Seq<char>)
    requires
        0 <= j < recs.len(),
    ensures
        count_lang(recs, lang) == count_lang(recs.remove(j), lang) + if recs[j].0 == lang {
            1nat
        } else {
            0nat
        },
        lines_lang(recs, lang) == lines_lang(recs.remove(j), lang) + if recs[j].0 == lang {
            recs[j].1
        } else {
            0nat
        },
        line_total(recs) == line_total(recs.remove(j)) + recs[j].1,
    decreases recs.len(),
{
    if j == recs.len() - 1 {
        assert(recs.remove(j) =~= recs.drop_last());
    } else {
        assert(recs.remove(j).drop_last() =~= recs.drop_last().remove(j));
        assert(recs.remove(j).last() == recs.last());
        lemma_counts_remove(recs.drop_last(), j, lang);
        assert(recs.drop_last()[j] == recs[j]);
    }
}

proof fn lemma_counts_permutation(
    r1: Seq<(Seq<char>, nat)>,
    r2: Seq<(Seq<char>, nat)>,
    lang: Seq<char>,
)
    requires
        r1.to_multiset() == r2.to_multiset(),
    ensures
        count_lang(r1, lang) == count_lang(r2, lang),
        lines_lang(r1, lang) == lines_lang(r2, lang),
        line_total(r1) == line_total(r2),
        r1.len() == r2.len(),
    decreases r1.len(),
{
    broadcast use vstd::seq_lib::group_to_multiset_ensures;
    broadcast use vstd::multiset::group_multiset_axioms;

    if r1.len() == 0 {
        assert(r1.to_multiset().len() == 0);
        assert(r2.len() == 0);
    } else {
        let x = r1.last();
        assert(r1.contains(x));
        assert(r2.to_multiset().count(x) > 0);
        assert(r2.contains(x));
        let j = choose|j: int| 0 <= j < r2.len() && r2[j] == x;
        assert(r1.drop_last() =~= r1.remove(r1.len() - 1));
        assert(r1.remove(r1.len() - 1).to_multiset() == r1.to_multiset().remove(x));
        assert(r2.remove(j).to_multiset() == r2.to_multiset().remove(x));
        lemma_counts_permutation(r1.drop_last(), r2.remove(j), lang);
        lemma_counts_remove(r2, j, lang);
    }
}

/// The order in which files are visited is not observable in the result:
/// two record collections that are permutations of one another fold to
/// tables that assign every language the same statistics, and to the same
/// grand totals.
pub proof fn lemma_order_not_observable(r1: Seq<(Seq<char>, nat)>, r2: Seq<(Seq<char>, nat)>)
    requires
        r1.to_multiset() == r2.to_multiset(),
    ensures
        forall|lang: Seq<char>| #[trigger] find_stat(spec_stats(r1), lang) == find_stat(
            spec_stats(r2),
            lang,
        ),
        r1.len() == r2.len(),
        line_total(r1) == line_total(r2),
{
    lemma_counts_permutation(r1, r2, Seq::empty());
    assert forall|lang: Seq<char>| #[trigger] find_stat(spec_stats(r1), lang) == find_stat(
        spec_stats(r2),
        lang,
    ) by {
        lemma_counts_permutation(r1, r2, lang);
        lemma_stats_exact(r1, lang);
        lemma_stats_exact(r2, lang);
    }
}

} // verus!
