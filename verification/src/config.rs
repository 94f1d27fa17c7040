use vstd::prelude::*;
use vstd::string::StrSliceExecFns;
use crate::models::LanguageEntry;
use crate::models::registry_view;
use crate::utils::str_eq;

verus! {

/// The directory names that the traverser never descends into: well-known
/// build, cache and dependency directories.
pub open spec fn ignored_dir_names() -> Seq<Seq<char>> {
    seq![
        "node_modules"@,
        "dist"@,
        ".dist"@,
        "out"@,
        "build"@,
        ".build"@,
        "__pycache__"@,
        ".git"@,
        "venv"@,
        "env"@,
        ".venv"@,
        "target"@,
        ".target"@,
        "bin"@,
        "obj"@,
        ".luarocks"@,
        "lua_modules"@,
    ]
}

/// Whether `name` is one of the always-ignored directory names.
pub open spec fn is_ignored_name(name: Seq<char>) -> bool {
    ignored_dir_names().contains(name)
}

/// Whether `name` is a hidden directory name: it starts with a dot and is
/// not exactly the bare `.`.
pub open spec fn is_hidden_name(name: Seq<char>) -> bool {
    name.len() >= 2 && name[0] == '.'
}

/// Whether a directory of this name is pruned from traversal.
pub open spec fn skipped_dir_name(name: Seq<char>) -> bool {
    is_hidden_name(name) || is_ignored_name(name)
}

/// The set of directory names that are skipped during analysis.
pub fn ignored_dirs() -> (r: Vec<String>)
    ensures
        r@.len() == ignored_dir_names().len(),
        forall|i: int| 0 <= i < r@.len() ==> r@[i]@ == ignored_dir_names()[i],
{
    let mut v: Vec<String> = Vec::new();
    v.push("node_modules".to_owned());
    v.push("dist".to_owned());
    v.push(".dist".to_owned());
    v.push("out".to_owned());
    v.push("build".to_owned());
    v.push(".build".to_owned());
    v.push("__pycache__".to_owned());
    v.push(".git".to_owned());
    v.push("venv".to_owned());
    v.push("env".to_owned());
    v.push(".venv".to_owned());
    v.push("target".to_owned());
    v.push(".target".to_owned());
    v.push("bin".to_owned());
    v.push("obj".to_owned());
    v.push(".luarocks".to_owned());
    v.push("lua_modules".to_owned());
    v
}

/// Decide whether a directory entry is pruned: only directories are ever
/// skipped, and a directory is skipped when its name is hidden (a leading
/// dot, except the bare `.`) or matches an always-ignored name.
#[verifier::loop_isolation(false)]
pub fn should_skip(name: &str, is_dir: bool) -> (r: bool)
    ensures
        r == (is_dir && skipped_dir_name(name@)),
{
    if !is_dir {
        return false;
    }
    let n = name.unicode_len();
    if n >= 2 && name.get_char(0) == '.' {
        return true;
    }
    let ignored = ignored_dirs();
    let mut i: usize = 0;
    while i < ignored.len()
        invariant
            0 <= i <= ignored@.len(),
            forall|j: int| 0 <= j < i ==> name@ != ignored_dir_names()[j],
        decreases ignored@.len() - i,
    {
        if str_eq(name, ignored[i].as_str()) {
            proof {
                assert(ignored_dir_names()[i as int] == name@);
            }
            return true;
        }
        i = i + 1;
    }
    proof {
        assert(!is_ignored_name(name@));
    }
    false
}

/// The language table as (name, extension) pairs.
pub open spec fn default_language_table() -> Seq<(Seq<char>, Seq<char>)> {
    seq![
        ("C"@, "c"@),
        ("Go"@, "go"@),
        ("Java"@, "java"@),
        ("JavaScript"@, "js"@),
        ("Lua"@, "lua"@),
        ("Python"@, "py"@),
        ("Ruby"@, "rb"@),
        ("Rust"@, "rs"@),
        ("TypeScript"@, "ts"@),
    ]
}

/// A well-formed language table maps each language name to exactly one
/// extension: no name occurs twice.
pub open spec fn registry_wf(reg: Seq<(Seq<char>, Seq<char>)>) -> bool {
    forall|i: int, j: int| 0 <= i < j < reg.len() ==> reg[i].0 != reg[j].0
}

/// The built-in language registry: each known language with the file
/// extension that identifies it.
pub fn default_languages() -> (r: Vec<LanguageEntry>)
    ensures
        registry_view(r@) == default_language_table(),
        registry_wf(registry_view(r@)),
{
    let mut v: Vec<LanguageEntry> = Vec::new();
    v.push(LanguageEntry { language: "C".to_owned(), extension: "c".to_owned() });
    v.push(LanguageEntry { language: "Go".to_owned(), extension: "go".to_owned() });
    v.push(LanguageEntry { language: "Java".to_owned(), extension: "java".to_owned() });
    v.push(LanguageEntry { language: "JavaScript".to_owned(), extension: "js".to_owned() });
    v.push(LanguageEntry { language: "Lua".to_owned(), extension: "lua".to_owned() });
    v.push(LanguageEntry { language: "Python".to_owned(), extension: "py".to_owned() });
    v.push(LanguageEntry { language: "Ruby".to_owned(), extension: "rb".to_owned() });
    v.push(LanguageEntry { language: "Rust".to_owned(), extension: "rs".to_owned() });
    v.push(LanguageEntry { language: "TypeScript".to_owned(), extension: "ts".to_owned() });
    proof {
        assert(registry_view(v@) =~= default_language_table());
        reveal_strlit("C");
        reveal_strlit("Go");
        reveal_strlit("Java");
        reveal_strlit("JavaScript");
        reveal_strlit("Lua");
        reveal_strlit("Python");
        reveal_strlit("Ruby");
        reveal_strlit("Rust");
        reveal_strlit("TypeScript");
        assert("C"@.len() == 1 && "Go"@.len() == 2 && "Lua"@.len() == 3);
        assert("Java"@.len() == 4 && "Ruby"@.len() == 4 && "Rust"@.len() == 4);
        assert("Python"@.len() == 6 && "JavaScript"@.len() == 10 && "TypeScript"@.len() == 10);
        assert("Java"@[0] == 'J' && "Ruby"@[0] == 'R' && "Rust"@[0] == 'R');
        assert("Ruby"@[2] == 'b' && "Rust"@[2] == 's');
        assert("JavaScript"@[0] == 'J' && "TypeScript"@[0] == 'T');
        assert(registry_wf(registry_view(v@)));
    }
    v
}

} // verus!
