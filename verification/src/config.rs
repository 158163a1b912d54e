use vstd::prelude::*;

verus! {

use crate::model::ends_with;
use crate::{str_chars, chars_string, subvec, vec_eq, has_suffix, pat1, pat2};

/// Why a configuration could not be used.
#[derive(Debug, PartialEq, Eq, Structural)]
pub enum ConfigError {
    /// The configuration text is not valid JSON.
    InvalidJson,
    /// An include pattern does not compile to a glob.
    InvalidPattern,
}

/// File patterns drawn from a configuration: which paths to process and
/// which to leave alone.
#[derive(Debug)]
pub struct BiomeFiles {
    pub includes: Vec<String>,
    pub excludes: Vec<String>,
}

/// The views of a sequence of owned strings.
pub open spec fn sviews(v: Seq<String>) -> Seq<Seq<char>> {
    v.map_values(|s: String| s@)
}

// ---------------------------------------------------------------------------
// From raw pattern entries to include and exclude lists.
// ---------------------------------------------------------------------------

/// Directories ignored whatever the configuration says.
pub open spec fn default_ignores() -> Seq<Seq<char>> {
    seq!["node_modules"@, ".git"@]
}

/// An entry such as `!dist`, which excludes instead of including.
pub open spec fn is_negated(p: Seq<char>) -> bool {
    p.len() >= 1 && p[0] == '!'
}

/// The entries that are not negated, in order.
pub open spec fn included_of(entries: Seq<Seq<char>>) -> Seq<Seq<char>>
    decreases entries.len(),
{
    if entries.len() == 0 {
        Seq::empty()
    } else {
        let rest = included_of(entries.drop_last());
        if is_negated(entries.last()) {
            rest
        } else {
            rest.push(entries.last())
        }
    }
}

/// The negated entries with their marker removed, in order.
pub open spec fn negated_of(entries: Seq<Seq<char>>) -> Seq<Seq<char>>
    decreases entries.len(),
{
    if entries.len() == 0 {
        Seq::empty()
    } else {
        let rest = negated_of(entries.drop_last());
        if is_negated(entries.last()) {
            rest.push(entries.last().drop_first())
        } else {
            rest
        }
    }
}

/// The include patterns: the entries that are not negated, or a match-all
/// pattern when none remain.
pub open spec fn spec_includes(entries: Seq<Seq<char>>) -> Seq<Seq<char>> {
    if included_of(entries).len() == 0 {
        seq!["**"@]
    } else {
        included_of(entries)
    }
}

/// The exclude patterns: the default ignores, then the negated entries with
/// their marker removed, then the ignore list.
pub open spec fn spec_excludes(entries: Seq<Seq<char>>, ignore: Seq<Seq<char>>) -> Seq<Seq<char>> {
    default_ignores() + negated_of(entries) + ignore
}

/// Sort raw pattern entries into include and exclude lists: negated entries
/// exclude, the rest include, the default ignores always apply, and an
/// empty include list falls back to everything.
pub fn biome_files_from_patterns(entries: Vec<String>, ignore: Vec<String>) -> (r: BiomeFiles)
    ensures
        sviews(r.includes@) == spec_includes(sviews(entries@)),
        sviews(r.excludes@) == spec_excludes(sviews(entries@), sviews(ignore@)),
{
    let ghost es = sviews(entries@);
    let mut includes: Vec<String> = Vec::new();
    let mut excludes: Vec<String> = Vec::new();
    excludes.push("node_modules".to_owned());
    excludes.push(".git".to_owned());
    proof {
        assert(sviews(excludes@) =~= default_ignores());
        assert(sviews(includes@) =~= Seq::<Seq<char>>::empty());
        assert(es.take(0) =~= Seq::<Seq<char>>::empty());
    }
    let mut i: usize = 0;
    while i < entries.len()
        invariant
            i <= entries@.len(),
            es == sviews(entries@),
            sviews(includes@) == included_of(es.take(i as int)),
            sviews(excludes@) == default_ignores() + negated_of(es.take(i as int)),
        decreases entries@.len() - i,
    {
        let ghost pre = es.take(i as int);
        proof {
            assert(es.take(i as int + 1).drop_last() =~= pre);
            assert(es.take(i as int + 1).last() == es[i as int]);
        }
        let v = str_chars(entries[i].as_str());
        proof {
            assert(es[i as int] == v@);
        }
        if v.len() >= 1 && v[0] == '!' {
            let stripped = subvec(&v, 1, v.len());
            let s = chars_string(&stripped);
            proof {
                assert(is_negated(es[i as int]));
                assert(s@ =~= es[i as int].drop_first());
                assert(negated_of(es.take(i as int + 1)) == negated_of(pre).push(
                    es[i as int].drop_first(),
                ));
                assert(included_of(es.take(i as int + 1)) == included_of(pre));
                assert(sviews(excludes@.push(s)) =~= sviews(excludes@).push(s@));
                assert(default_ignores() + negated_of(pre).push(es[i as int].drop_first()) =~= (
                default_ignores() + negated_of(pre)).push(es[i as int].drop_first()));
            }
            excludes.push(s);
        } else {
            let s = entries[i].clone();
            proof {
                assert(!is_negated(es[i as int])) by {
                    if is_negated(v@) {
                        assert(v@.len() >= 1 && v@[0] == '!');
                    }
                }
                assert(included_of(es.take(i as int + 1)) == included_of(pre).push(es[i as int]));
                assert(negated_of(es.take(i as int + 1)) == negated_of(pre));
                assert(sviews(includes@.push(s)) =~= sviews(includes@).push(s@));
            }
            includes.push(s);
        }
        i += 1;
    }
    proof {
        assert(es.take(es.len() as int) =~= es);
    }
    if includes.len() == 0 {
        includes.push("**".to_owned());
        proof {
            assert(sviews(includes@) =~= seq!["**"@]);
        }
    }
    let mut j: usize = 0;
    let ghost gs = sviews(ignore@);
    let ghost exc0 = sviews(excludes@);
    proof {
        assert(exc0 + gs.take(0) =~= exc0);
    }
    while j < ignore.len()
        invariant
            j <= ignore@.len(),
            gs == sviews(ignore@),
            sviews(excludes@) == exc0 + gs.take(j as int),
        decreases ignore@.len() - j,
    {
        let s = ignore[j].clone();
        proof {
            assert(sviews(excludes@.push(s)) =~= sviews(excludes@).push(s@));
            assert(exc0 + gs.take(j as int + 1) =~= (exc0 + gs.take(j as int)).push(
                gs[j as int],
            ));
        }
        excludes.push(s);
        j += 1;
    }
    proof {
        assert(gs.take(gs.len() as int) =~= gs);
    }
    BiomeFiles { includes, excludes }
}

// ---------------------------------------------------------------------------
// Reading the configuration's JSON.
// ---------------------------------------------------------------------------

/// Declares `serde_json::Value`, the parsed form of a JSON document, so
/// that it can appear in signatures; its inside stays opaque here.
#[verifier::external_type_specification]
#[verifier::external_body]
pub struct ExJsonValue(serde_json::Value);

/// Whether a text is a valid JSON document; this depends on the text alone.
pub uninterp spec fn json_parses(s: Seq<char>) -> bool;

/// The value a valid JSON document parses to; parsing is a function of the
/// text alone.
pub uninterp spec fn json_value_of(s: Seq<char>) -> serde_json::Value;

/// The member a key selects in a JSON value: `None` when the value is not
/// an object or lacks the key.
pub uninterp spec fn json_member_of(v: serde_json::Value, key: Seq<char>) -> Option<
    serde_json::Value,
>;

/// The elements a JSON value holds when it is an array, `None` otherwise.
pub uninterp spec fn json_array_of(v: serde_json::Value) -> Option<Seq<serde_json::Value>>;

/// The characters a JSON value holds when it is a string, `None` otherwise.
pub uninterp spec fn json_str_of(v: serde_json::Value) -> Option<Seq<char>>;

/// Relies on `serde_json::from_str::<Value>`: parsing succeeds exactly when
/// the text is valid JSON, and both that and the parsed value depend on the
/// text alone.
#[verifier::external_body]
fn json_parse(s: &str) -> (r: Option<serde_json::Value>)
    ensures
        r is Some <==> json_parses(s@),
        r matches Some(v) ==> v == json_value_of(s@),
{
    match serde_json::from_str::<serde_json::Value>(s) {
        Ok(v) => Some(v),
        Err(_) => None,
    }
}

/// Relies on `serde_json::Value::get` with a string index: the member of a
/// JSON object under that key, `None` when absent or not an object.
#[verifier::external_body]
fn json_get<'a>(v: &'a serde_json::Value, key: &str) -> (r: Option<&'a serde_json::Value>)
    ensures
        r matches Some(m) ==> json_member_of(*v, key@) == Some(*m),
        r is None ==> json_member_of(*v, key@) is None,
{
    v.get(key)
}

/// Relies on `serde_json::Value::as_array`: the elements when the value is
/// a JSON array, `None` otherwise.
#[verifier::external_body]
fn json_as_array<'a>(v: &'a serde_json::Value) -> (r: Option<&'a Vec<serde_json::Value>>)
    ensures
        r matches Some(a) ==> json_array_of(*v) == Some(a@),
        r is None ==> json_array_of(*v) is None,
{
    v.as_array()
}

/// Relies on `serde_json::Value::as_str`: the characters when the value is
/// a JSON string, `None` otherwise.
#[verifier::external_body]
fn json_as_str<'a>(v: &'a serde_json::Value) -> (r: Option<&'a str>)
    ensures
        r matches Some(s) ==> json_str_of(*v) == Some(s@),
        r is None ==> json_str_of(*v) is None,
{
    v.as_str()
}

/// The strings among a sequence of JSON values, in order.
pub open spec fn strings_of(vs: Seq<serde_json::Value>) -> Seq<Seq<char>>
    decreases vs.len(),
{
    if vs.len() == 0 {
        Seq::empty()
    } else {
        let rest = strings_of(vs.drop_last());
        if json_str_of(vs.last()) is Some {
            rest.push(json_str_of(vs.last()).unwrap())
        } else {
            rest
        }
    }
}

/// Collect the strings of a JSON array, skipping other elements.
fn collect_strings(arr: &Vec<serde_json::Value>) -> (r: Vec<String>)
    ensures
        sviews(r@) == strings_of(arr@),
{
    let mut r: Vec<String> = Vec::new();
    let mut i: usize = 0;
    proof {
        assert(arr@.take(0) =~= Seq::<serde_json::Value>::empty());
        assert(sviews(r@) =~= Seq::<Seq<char>>::empty());
    }
    while i < arr.len()
        invariant
            i <= arr@.len(),
            sviews(r@) == strings_of(arr@.take(i as int)),
        decreases arr@.len() - i,
    {
        proof {
            assert(arr@.take(i as int + 1).drop_last() =~= arr@.take(i as int));
            assert(arr@.take(i as int + 1).last() == arr@[i as int]);
        }
        match json_as_str(&arr[i]) {
            Some(s) => {
                let owned = s.to_owned();
                proof {
                    assert(sviews(r@.push(owned)) =~= sviews(r@).push(owned@));
                }
                r.push(owned);
            },
            None => {},
        }
        i += 1;
    }
    proof {
        assert(arr@.take(arr@.len() as int) =~= arr@);
    }
    r
}

/// The include entries a configuration document yields: the strings of the
/// array under `files.includes` — or `files.include` when `includes` is
/// absent — and nothing when no member of that shape is present.
pub open spec fn config_entries_of(doc: serde_json::Value) -> Seq<Seq<char>> {
    match json_member_of(doc, "files"@) {
        Some(files) => {
            let inc = if json_member_of(files, "includes"@) is Some {
                json_member_of(files, "includes"@)
            } else {
                json_member_of(files, "include"@)
            };
            match inc {
                Some(iv) => match json_array_of(iv) {
                    Some(arr) => strings_of(arr),
                    None => Seq::empty(),
                },
                None => Seq::empty(),
            }
        },
        None => Seq::empty(),
    }
}

/// The ignore entries a configuration document yields: the strings of the
/// array under `files.ignore`, and nothing when no member of that shape is
/// present.
pub open spec fn config_ignore_of(doc: serde_json::Value) -> Seq<Seq<char>> {
    match json_member_of(doc, "files"@) {
        Some(files) => match json_member_of(files, "ignore"@) {
            Some(gv) => match json_array_of(gv) {
                Some(arr) => strings_of(arr),
                None => Seq::empty(),
            },
            None => Seq::empty(),
        },
        None => Seq::empty(),
    }
}

/// Parse a configuration document and extract its file patterns: `Ok`
/// exactly when the text is valid JSON, and then exactly the sorting of
/// the include and ignore entries the document yields.
pub fn parse_biome_config(content: &str) -> (r: Result<BiomeFiles, ConfigError>)
    ensures
        r is Ok <==> json_parses(content@),
        r matches Ok(c) ==> sviews(c.includes@) == spec_includes(
            config_entries_of(json_value_of(content@)),
        ) && sviews(c.excludes@) == spec_excludes(
            config_entries_of(json_value_of(content@)),
            config_ignore_of(json_value_of(content@)),
        ),
{
    let parsed = json_parse(content);
    match parsed {
        None => Err(ConfigError::InvalidJson),
        Some(v) => {
            let ghost doc = json_value_of(content@);
            let mut entries: Vec<String> = Vec::new();
            let mut ignore: Vec<String> = Vec::new();
            proof {
                assert(sviews(entries@) =~= Seq::<Seq<char>>::empty());
                assert(sviews(ignore@) =~= Seq::<Seq<char>>::empty());
            }
            match json_get(&v, "files") {
                Some(files) => {
                    let inc = match json_get(files, "includes") {
                        Some(x) => Some(x),
                        None => json_get(files, "include"),
                    };
                    match inc {
                        Some(iv) => match json_as_array(iv) {
                            Some(arr) => {
                                entries = collect_strings(arr);
                                proof {
                                    assert(sviews(entries@) == config_entries_of(doc));
                                }
                            },
                            None => {
                                proof {
                                    assert(sviews(entries@) == config_entries_of(doc));
                                }
                            },
                        },
                        None => {
                            proof {
                                assert(sviews(entries@) == config_entries_of(doc));
                            }
                        },
                    }
                    match json_get(files, "ignore") {
                        Some(gv) => match json_as_array(gv) {
                            Some(arr) => {
                                ignore = collect_strings(arr);
                                proof {
                                    assert(sviews(ignore@) == config_ignore_of(doc));
                                }
                            },
                            None => {
                                proof {
                                    assert(sviews(ignore@) == config_ignore_of(doc));
                                }
                            },
                        },
                        None => {
                            proof {
                                assert(sviews(ignore@) == config_ignore_of(doc));
                            }
                        },
                    }
                },
                None => {
                    proof {
                        assert(sviews(entries@) == config_entries_of(doc));
                        assert(sviews(ignore@) == config_ignore_of(doc));
                    }
                },
            }
            proof {
                assert(sviews(entries@) == config_entries_of(doc));
                assert(sviews(ignore@) == config_ignore_of(doc));
            }
            let bf = biome_files_from_patterns(entries, ignore);
            Ok(bf)
        },
    }
}

// ---------------------------------------------------------------------------
// Eligible files.
// ---------------------------------------------------------------------------

/// Index of the last occurrence of `c` in `s`, or `-1` if absent.
pub open spec fn last_idx(s: Seq<char>, c: char) -> int
    decreases s.len(),
{
    if s.len() == 0 {
        -1
    } else if s.last() == c {
        s.len() - 1
    } else {
        last_idx(s.drop_last(), c)
    }
}

proof fn lemma_last_idx_props(s: Seq<char>, c: char)
    ensures
        -1 <= last_idx(s, c) < s.len(),
        last_idx(s, c) >= 0 ==> s[last_idx(s, c)] == c,
        forall|j: int| last_idx(s, c) < j < s.len() ==> s[j] != c,
    decreases s.len(),
{
    if s.len() == 0 {
    } else if s.last() == c {
    } else {
        lemma_last_idx_props(s.drop_last(), c);
        assert forall|j: int| last_idx(s, c) < j < s.len() implies s[j] != c by {
            if j < s.len() - 1 {
                assert(s.drop_last()[j] == s[j]);
            }
        }
    }
}

/// The final path component: what follows the last separator.
pub open spec fn file_name_of(p: Seq<char>) -> Seq<char> {
    p.skip(last_idx(p, '/') + 1)
}

/// The extension of a file name: what follows the last dot, unless the dot
/// is absent or starts the name.
pub open spec fn extension_of(name: Seq<char>) -> Option<Seq<char>> {
    let d = last_idx(name, '.');
    if d <= 0 {
        None
    } else {
        Some(name.skip(d + 1))
    }
}

/// The extensions of the files this tool rewrites.
pub open spec fn supported_exts() -> Seq<Seq<char>> {
    seq!["ts"@, "tsx"@, "js"@, "jsx"@]
}

/// An eligible path: its file name carries one of the supported extensions.
pub open spec fn spec_supported_path(p: Seq<char>) -> bool {
    match extension_of(file_name_of(p)) {
        Some(e) => supported_exts().contains(e),
        None => false,
    }
}

/// Index just after the last occurrence of `c`, or `0` if absent.
fn rfind_after(v: &Vec<char>, c: char) -> (r: usize)
    ensures
        r == last_idx(v@, c) + 1,
        r <= v@.len(),
{
    let mut i: usize = v.len();
    while i > 0
        invariant
            i <= v@.len(),
            forall|j: int| i <= j < v@.len() ==> v@[j] != c,
        decreases i,
    {
        if v[i - 1] == c {
            proof {
                lemma_last_idx_props(v@, c);
                assert(v@[i - 1] == c);
                assert(last_idx(v@, c) == i - 1) by {
                    if last_idx(v@, c) < i - 1 {
                        assert(v@[i - 1] != c);
                    }
                    if last_idx(v@, c) > i - 1 {
                        assert(v@[last_idx(v@, c)] == c);
                        assert(v@[last_idx(v@, c)] != c);
                    }
                }
            }
            return i;
        }
        i -= 1;
    }
    proof {
        lemma_last_idx_props(v@, c);
        assert(last_idx(v@, c) == -1) by {
            if last_idx(v@, c) >= 0 {
                assert(v@[last_idx(v@, c)] == c);
                assert(v@[last_idx(v@, c)] != c);
            }
        }
    }
    0
}

/// Whether a path names a file this tool rewrites: its name ends in one of
/// the supported extensions.
pub fn is_supported_path(path: &str) -> (r: bool)
    ensures
        r == spec_supported_path(path@),
{
    let v = str_chars(path);
    let name_start = rfind_after(&v, '/');
    let name = subvec(&v, name_start, v.len());
    proof {
        assert(name@ =~= file_name_of(path@));
    }
    let dot = rfind_after(&name, '.');
    if dot <= 1 {
        proof {
            assert(last_idx(name@, '.') <= 0);
        }
        return false;
    }
    let ext = subvec(&name, dot, name.len());
    proof {
        assert(ext@ =~= name@.skip(last_idx(name@, '.') + 1));
        assert(extension_of(name@) == Some(ext@));
    }
    let mut p = pat1('t');
    p.push('s');
    proof {
        reveal_strlit("ts");
        assert(p@ =~= "ts"@);
    }
    if vec_eq(&ext, &p) {
        proof {
            assert(supported_exts()[0] == "ts"@);
        }
        return true;
    }
    p.push('x');
    proof {
        reveal_strlit("tsx");
        assert(p@ =~= "tsx"@);
    }
    if vec_eq(&ext, &p) {
        proof {
            assert(supported_exts()[1] == "tsx"@);
        }
        return true;
    }
    let mut q = pat1('j');
    q.push('s');
    proof {
        reveal_strlit("js");
        assert(q@ =~= "js"@);
    }
    if vec_eq(&ext, &q) {
        proof {
            assert(supported_exts()[2] == "js"@);
        }
        return true;
    }
    q.push('x');
    proof {
        reveal_strlit("jsx");
        assert(q@ =~= "jsx"@);
    }
    if vec_eq(&ext, &q) {
        proof {
            assert(supported_exts()[3] == "jsx"@);
        }
        return true;
    }
    proof {
        assert(!supported_exts().contains(ext@)) by {
            if supported_exts().contains(ext@) {
                let k = choose|k: int|
                    0 <= k < supported_exts().len() && supported_exts()[k] == ext@;
                assert(supported_exts()[0] == "ts"@);
                assert(supported_exts()[1] == "tsx"@);
                assert(supported_exts()[2] == "js"@);
                assert(supported_exts()[3] == "jsx"@);
            }
        }
    }
    false
}

/// Whether two strings hold the same characters.
fn str_eq(a: &str, b: &str) -> (r: bool)
    ensures
        r == (a@ == b@),
{
    let va = str_chars(a);
    let vb = str_chars(b);
    vec_eq(&va, &vb)
}

/// Whether a directory name is one of the excluded ones, compared exactly.
pub fn is_excluded_dir(name: &str, excludes: &Vec<String>) -> (r: bool)
    ensures
        r == sviews(excludes@).contains(name@),
{
    let mut i: usize = 0;
    while i < excludes.len()
        invariant
            i <= excludes@.len(),
            forall|j: int| 0 <= j < i ==> sviews(excludes@)[j] != name@,
        decreases excludes@.len() - i,
    {
        if str_eq(name, excludes[i].as_str()) {
            proof {
                assert(sviews(excludes@)[i as int] == name@);
            }
            return true;
        }
        i += 1;
    }
    false
}

// ---------------------------------------------------------------------------
// Glob patterns over the include list.
// ---------------------------------------------------------------------------

/// The glob tried for one include pattern and one extension: a pattern
/// ending in `**` matches files right below it, one ending in `/` matches
/// the whole subtree, and any other pattern is used as it stands.
pub open spec fn glob_for(p: Seq<char>, ext: Seq<char>) -> Seq<char> {
    if ends_with(p, "**"@) {
        p + "/*."@ + ext
    } else if ends_with(p, "/"@) {
        p + "**/*."@ + ext
    } else {
        p
    }
}

/// The globs for all include patterns: each pattern paired with each
/// supported extension, in order.
pub open spec fn glob_patterns_of(ps: Seq<Seq<char>>) -> Seq<Seq<char>>
    decreases ps.len(),
{
    if ps.len() == 0 {
        Seq::empty()
    } else {
        glob_patterns_of(ps.drop_last()) + seq![
            glob_for(ps.last(), "ts"@),
            glob_for(ps.last(), "tsx"@),
            glob_for(ps.last(), "js"@),
            glob_for(ps.last(), "jsx"@),
        ]
    }
}

fn glob_for_exec(p: &String, ext: &str) -> (g: String)
    ensures
        g@ == glob_for(p@, ext@),
{
    broadcast use vstd::string::group_string_axioms;

    let v = str_chars(p.as_str());
    let star2 = pat2('*', '*');
    let slash = pat1('/');
    proof {
        reveal_strlit("**");
        reveal_strlit("/");
        assert(star2@ =~= "**"@);
        assert(slash@ =~= "/"@);
    }
    if has_suffix(&v, &star2) {
        let mut g = p.clone();
        g.append("/*.");
        g.append(ext);
        proof {
            assert(g@ =~= p@ + "/*."@ + ext@);
        }
        g
    } else if has_suffix(&v, &slash) {
        let mut g = p.clone();
        g.append("**/*.");
        g.append(ext);
        proof {
            assert(g@ =~= p@ + "**/*."@ + ext@);
        }
        g
    } else {
        p.clone()
    }
}

/// The glob patterns derived from the include list, one per pattern and
/// supported extension.
pub fn include_glob_patterns(includes: &Vec<String>) -> (r: Vec<String>)
    ensures
        sviews(r@) == glob_patterns_of(sviews(includes@)),
{
    let ghost ps = sviews(includes@);
    let mut r: Vec<String> = Vec::new();
    let mut i: usize = 0;
    proof {
        assert(ps.take(0) =~= Seq::<Seq<char>>::empty());
        assert(sviews(r@) =~= Seq::<Seq<char>>::empty());
    }
    while i < includes.len()
        invariant
            i <= includes@.len(),
            ps == sviews(includes@),
            sviews(r@) == glob_patterns_of(ps.take(i as int)),
        decreases includes@.len() - i,
    {
        proof {
            assert(ps.take(i as int + 1).drop_last() =~= ps.take(i as int));
            assert(ps.take(i as int + 1).last() == ps[i as int]);
        }
        let ghost before = sviews(r@);
        let p = &includes[i];
        let g0 = glob_for_exec(p, "ts");
        proof {
            assert(sviews(r@.push(g0)) =~= sviews(r@).push(g0@));
        }
        r.push(g0);
        let g1 = glob_for_exec(p, "tsx");
        proof {
            assert(sviews(r@.push(g1)) =~= sviews(r@).push(g1@));
        }
        r.push(g1);
        let g2 = glob_for_exec(p, "js");
        proof {
            assert(sviews(r@.push(g2)) =~= sviews(r@).push(g2@));
        }
        r.push(g2);
        let g3 = glob_for_exec(p, "jsx");
        proof {
            assert(sviews(r@.push(g3)) =~= sviews(r@).push(g3@));
        }
        r.push(g3);
        proof {
            assert(sviews(r@) =~= before + seq![
                glob_for(ps[i as int], "ts"@),
                glob_for(ps[i as int], "tsx"@),
                glob_for(ps[i as int], "js"@),
                glob_for(ps[i as int], "jsx"@),
            ]);
        }
        i += 1;
    }
    proof {
        assert(ps.take(ps.len() as int) =~= ps);
    }
    r
}

// ---------------------------------------------------------------------------
// Matching paths against the include globs.
// ---------------------------------------------------------------------------

/// Declares `globset::Glob`, one compiled glob pattern.
#[verifier::external_type_specification]
#[verifier::external_body]
pub struct ExGlob(globset::Glob);

/// Declares `globset::GlobSet`, a group of globs matched together.
#[verifier::external_type_specification]
#[verifier::external_body]
pub struct ExGlobSet(globset::GlobSet);

/// Declares `globset::GlobSetBuilder`, which collects globs for one set.
#[verifier::external_type_specification]
#[verifier::external_body]
pub struct ExGlobSetBuilder(globset::GlobSetBuilder);

/// Declares `globset::Error`, what glob compilation reports on failure.
#[verifier::external_type_specification]
#[verifier::external_body]
pub struct ExGlobError(globset::Error);

/// Whether a pattern is a well-formed glob; this depends on the pattern
/// alone.
pub uninterp spec fn glob_pattern_ok(p: Seq<char>) -> bool;

/// The pattern a compiled glob holds.
pub uninterp spec fn glob_pattern(g: globset::Glob) -> Seq<char>;

/// The patterns a builder holds, in the order they were added.
pub uninterp spec fn builder_patterns(b: globset::GlobSetBuilder) -> Seq<Seq<char>>;

/// The patterns a built set holds.
pub uninterp spec fn globset_patterns(s: globset::GlobSet) -> Seq<Seq<char>>;

/// Whether a list of glob patterns compiles into one matcher; this depends
/// on the patterns alone.
pub uninterp spec fn globset_buildable(pats: Seq<Seq<char>>) -> bool;

/// Whether any of a set of glob patterns matches a path; this depends on
/// the patterns and the path alone.
pub uninterp spec fn globs_match(pats: Seq<Seq<char>>, path: Seq<char>) -> bool;

/// Relies on `globset::Glob::new`: compiling succeeds exactly when the
/// pattern is well-formed, and the glob then carries that pattern.
#[verifier::external_body]
fn glob_new(pat: &str) -> (r: Result<globset::Glob, globset::Error>)
    ensures
        r is Ok <==> glob_pattern_ok(pat@),
        r matches Ok(g) ==> glob_pattern(g) == pat@,
{
    globset::Glob::new(pat)
}

/// Relies on `globset::GlobSetBuilder::new`: a fresh builder holds no
/// patterns.
#[verifier::external_body]
fn globset_builder_new() -> (r: globset::GlobSetBuilder)
    ensures
        builder_patterns(r) == Seq::<Seq<char>>::empty(),
{
    globset::GlobSetBuilder::new()
}

/// Relies on `globset::GlobSetBuilder::add`: adding a glob appends its
/// pattern to the builder's list.
#[verifier::external_body]
fn globset_builder_add(b: &mut globset::GlobSetBuilder, g: globset::Glob)
    ensures
        builder_patterns(*final(b)) == builder_patterns(*old(b)).push(glob_pattern(g)),
{
    b.add(g);
}

/// Relies on `globset::GlobSetBuilder::build`: building succeeds exactly
/// when the collected patterns compile together, which depends on the
/// patterns alone; the built set then holds them.
#[verifier::external_body]
fn globset_builder_build(b: &globset::GlobSetBuilder) -> (r: Result<
    globset::GlobSet,
    globset::Error,
>)
    ensures
        r is Ok <==> globset_buildable(builder_patterns(*b)),
        r matches Ok(s) ==> globset_patterns(s) == builder_patterns(*b),
{
    b.build()
}

/// Relies on `globset::GlobSet::is_match`: whether any pattern of the set
/// matches the path; the answer depends on the patterns and the path alone.
#[verifier::external_body]
fn globset_is_match(s: &globset::GlobSet, path: &str) -> (r: bool)
    ensures
        r == globs_match(globset_patterns(*s), path@),
{
    s.is_match(path)
}

/// Compile the globs for an include list into one matcher: `Ok` exactly
/// when every derived pattern is a well-formed glob and the patterns
/// compile together, and the matcher then holds exactly those patterns.
pub fn build_include_globset(includes: &Vec<String>) -> (r: Result<globset::GlobSet, ConfigError>)
    ensures
        r matches Ok(s) ==> globset_patterns(s) == glob_patterns_of(sviews(includes@)),
        r is Ok <==> (forall|i: int|
            0 <= i < glob_patterns_of(sviews(includes@)).len() ==> glob_pattern_ok(
                #[trigger] glob_patterns_of(sviews(includes@))[i],
            )) && globset_buildable(glob_patterns_of(sviews(includes@))),
{
    let pats = include_glob_patterns(includes);
    let ghost pv = sviews(pats@);
    let mut b = globset_builder_new();
    let mut i: usize = 0;
    proof {
        assert(pv.take(0) =~= Seq::<Seq<char>>::empty());
    }
    while i < pats.len()
        invariant
            i <= pats@.len(),
            pv == sviews(pats@),
            pv == glob_patterns_of(sviews(includes@)),
            builder_patterns(b) == pv.take(i as int),
            forall|j: int| 0 <= j < i ==> glob_pattern_ok(#[trigger] pv[j]),
        decreases pats@.len() - i,
    {
        match glob_new(pats[i].as_str()) {
            Ok(g) => {
                proof {
                    assert(pv.take(i as int + 1) =~= pv.take(i as int).push(pv[i as int]));
                }
                globset_builder_add(&mut b, g);
            },
            Err(_) => {
                proof {
                    assert(pv[i as int] == sviews(pats@)[i as int]);
                    assert(!glob_pattern_ok(glob_patterns_of(sviews(includes@))[i as int]));
                }
                return Err(ConfigError::InvalidPattern);
            },
        }
        i += 1;
    }
    proof {
        assert(pv.take(pv.len() as int) =~= pv);
    }
    match globset_builder_build(&b) {
        Ok(s) => Ok(s),
        Err(_) => Err(ConfigError::InvalidPattern),
    }
}

/// The paths kept by the resolver: eligible by extension and matched by
/// some include glob, in order.
pub open spec fn selected(paths: Seq<Seq<char>>, pats: Seq<Seq<char>>) -> Seq<Seq<char>>
    decreases paths.len(),
{
    if paths.len() == 0 {
        Seq::empty()
    } else {
        let rest = selected(paths.drop_last(), pats);
        if spec_supported_path(paths.last()) && globs_match(pats, paths.last()) {
            rest.push(paths.last())
        } else {
            rest
        }
    }
}

/// Keep the paths that are eligible by extension and match the include
/// globs.
pub fn select_files(paths: &Vec<String>, set: &globset::GlobSet) -> (r: Vec<String>)
    ensures
        sviews(r@) == selected(sviews(paths@), globset_patterns(*set)),
{
    let ghost pv = sviews(paths@);
    let ghost pats = globset_patterns(*set);
    let mut r: Vec<String> = Vec::new();
    let mut i: usize = 0;
    proof {
        assert(pv.take(0) =~= Seq::<Seq<char>>::empty());
        assert(sviews(r@) =~= Seq::<Seq<char>>::empty());
    }
    while i < paths.len()
        invariant
            i <= paths@.len(),
            pv == sviews(paths@),
            pats == globset_patterns(*set),
            sviews(r@) == selected(pv.take(i as int), pats),
        decreases paths@.len() - i,
    {
        proof {
            assert(pv.take(i as int + 1).drop_last() =~= pv.take(i as int));
            assert(pv.take(i as int + 1).last() == pv[i as int]);
        }
        if is_supported_path(paths[i].as_str()) && globset_is_match(set, paths[i].as_str()) {
            let s = paths[i].clone();
            proof {
                assert(sviews(r@.push(s)) =~= sviews(r@).push(s@));
            }
            r.push(s);
        }
        i += 1;
    }
    proof {
        assert(pv.take(pv.len() as int) =~= pv);
    }
    r
}

// ---------------------------------------------------------------------------
// Ordering the resolved paths.
// ---------------------------------------------------------------------------

/// Lexicographic order on character sequences, by code point. On text this
/// is the order `str` comparison gives, since UTF-8 preserves it.
pub open spec fn chars_lt(a: Seq<char>, b: Seq<char>) -> bool
    decreases a.len(),
{
    if b.len() == 0 {
        false
    } else if a.len() == 0 {
        true
    } else if a.first() == b.first() {
        chars_lt(a.drop_first(), b.drop_first())
    } else {
        (a.first() as int) < (b.first() as int)
    }
}

proof fn lemma_chars_lt_connected(a: Seq<char>, b: Seq<char>)
    ensures
        chars_lt(a, b) || chars_lt(b, a) || a == b,
    decreases a.len(),
{
    if a.len() == 0 {
        if b.len() == 0 {
            assert(a =~= b);
        }
    } else if b.len() == 0 {
    } else if a.first() == b.first() {
        lemma_chars_lt_connected(a.drop_first(), b.drop_first());
        if a.drop_first() == b.drop_first() {
            assert(a.drop_first().len() == b.drop_first().len());
            assert(a.len() == b.len());
            assert(a =~= b) by {
                assert(a[0] == b[0]);
                assert forall|j: int| 0 <= j < a.len() implies a[j] == b[j] by {
                    if j > 0 {
                        assert(a.drop_first()[j - 1] == b.drop_first()[j - 1]);
                        assert(a.drop_first()[j - 1] == a[j]);
                        assert(b.drop_first()[j - 1] == b[j]);
                    }
                }
            }
        }
    }
}

proof fn lemma_chars_lt_trans(a: Seq<char>, b: Seq<char>, c: Seq<char>)
    requires
        chars_lt(a, b),
        chars_lt(b, c),
    ensures
        chars_lt(a, c),
    decreases a.len(),
{
    if a.len() == 0 {
    } else {
        if a.first() == b.first() {
            if b.first() == c.first() {
                lemma_chars_lt_trans(a.drop_first(), b.drop_first(), c.drop_first());
            }
        }
    }
}

proof fn lemma_char_cast(c: char)
    ensures
        c as u32 == c as int,
{
}

/// A shared prefix does not decide the order.
proof fn lemma_chars_lt_skip(a: Seq<char>, b: Seq<char>, i: int)
    requires
        0 <= i <= a.len(),
        i <= b.len(),
        forall|j: int| 0 <= j < i ==> a[j] == b[j],
    ensures
        chars_lt(a, b) == chars_lt(a.skip(i), b.skip(i)),
    decreases i,
{
    if i > 0 {
        assert(a.first() == b.first()) by {
            assert(a[0] == b[0]);
        }
        assert(a.drop_first() =~= a.skip(1));
        assert(b.drop_first() =~= b.skip(1));
        assert(forall|j: int| 0 <= j < i - 1 ==> a.skip(1)[j] == a[j + 1] && b.skip(1)[j] == b[j
            + 1]);
        lemma_chars_lt_skip(a.skip(1), b.skip(1), i - 1);
        assert(a.skip(1).skip(i - 1) =~= a.skip(i));
        assert(b.skip(1).skip(i - 1) =~= b.skip(i));
    } else {
        assert(a.skip(0) =~= a);
        assert(b.skip(0) =~= b);
    }
}

fn vec_lt(a: &Vec<char>, b: &Vec<char>) -> (r: bool)
    ensures
        r == chars_lt(a@, b@),
{
    let mut i: usize = 0;
    while i < a.len() && i < b.len()
        invariant
            i <= a@.len(),
            i <= b@.len(),
            forall|j: int| 0 <= j < i ==> a@[j] == b@[j],
        decreases a@.len() - i,
    {
        let ca = a[i];
        let cb = b[i];
        if ca != cb {
            proof {
                lemma_chars_lt_skip(a@, b@, i as int);
                assert(a@.skip(i as int).len() > 0);
                assert(b@.skip(i as int).len() > 0);
                assert(a@.skip(i as int).first() == a@[i as int]);
                assert(b@.skip(i as int).first() == b@[i as int]);
                lemma_char_cast(ca);
                lemma_char_cast(cb);
                assert(chars_lt(a@, b@) == ((ca as int) < (cb as int)));
            }
            return (ca as u32) < (cb as u32);
        }
        i += 1;
    }
    proof {
        lemma_chars_lt_skip(a@, b@, i as int);
    }
    a.len() < b.len()
}

/// Sorted in the lexicographic order, with no line repeated.
pub open spec fn strictly_increasing(ls: Seq<Seq<char>>) -> bool {
    forall|i: int, j: int| 0 <= i < j < ls.len() ==> chars_lt(#[trigger] ls[i], #[trigger] ls[j])
}

/// Sort paths into the lexicographic order and drop duplicates: the result
/// is strictly increasing and holds exactly the members of the input.
pub fn sort_dedup_paths(v: Vec<String>) -> (r: Vec<String>)
    ensures
        strictly_increasing(sviews(r@)),
        forall|x: Seq<char>| sviews(r@).contains(x) <==> sviews(v@).contains(x),
{
    let ghost vs = sviews(v@);
    let mut r: Vec<String> = Vec::new();
    let mut i: usize = 0;
    proof {
        assert(vs.take(0) =~= Seq::<Seq<char>>::empty());
        assert(sviews(r@) =~= Seq::<Seq<char>>::empty());
        assert forall|x: Seq<char>|
            sviews(r@).contains(x) <==> vs.take(0).contains(x) by {}
    }
    while i < v.len()
        invariant
            i <= v@.len(),
            vs == sviews(v@),
            strictly_increasing(sviews(r@)),
            forall|x: Seq<char>| sviews(r@).contains(x) <==> vs.take(i as int).contains(x),
        decreases v@.len() - i,
    {
        let xc = str_chars(v[i].as_str());
        let ghost x = vs[i as int];
        proof {
            assert(x == xc@);
            assert(vs.take(i as int + 1) =~= vs.take(i as int).push(x));
        }
        let mut p: usize = 0;
        while p < r.len() && vec_lt(&str_chars(r[p].as_str()), &xc)
            invariant
                p <= r@.len(),
                xc@ == x,
                forall|j: int| 0 <= j < p ==> chars_lt(#[trigger] sviews(r@)[j], x),
            decreases r@.len() - p,
        {
            proof {
                assert(sviews(r@)[p as int] == r@[p as int]@);
            }
            p += 1;
        }
        let mut is_dup = false;
        if p < r.len() {
            is_dup = vec_eq(&str_chars(r[p].as_str()), &xc);
        }
        let ghost old_rs = sviews(r@);
        if is_dup {
            proof {
                assert(old_rs[p as int] == x);
                assert(old_rs.contains(x));
                assert forall|y: Seq<char>|
                    old_rs.contains(y) <==> vs.take(i as int + 1).contains(y) by {
                    lemma_push_contains(vs.take(i as int), x, y);
                }
            }
        } else {
            let e = v[i].clone();
            r.insert(p, e);
            proof {
                let ns = sviews(r@);
                old_rs.insert_ensures(p as int, x);
                assert(ns =~= old_rs.insert(p as int, x)) by {
                    let ov = r@.remove(p as int);
                    assert(forall|m: int|
                        0 <= m < ns.len() ==> ns[m] == #[trigger] r@[m]@);
                }
                // Everything before the insertion point is below `x`, and
                // everything at or after it is above.
                assert(forall|j: int| 0 <= j < p ==> chars_lt(#[trigger] old_rs[j], x));
                if p < old_rs.len() {
                    lemma_chars_lt_connected(old_rs[p as int], x);
                    assert(old_rs[p as int] != x);
                    assert(!chars_lt(old_rs[p as int], x));
                    assert(chars_lt(x, old_rs[p as int]));
                }
                assert forall|m: int, n: int|
                    0 <= m < n < ns.len() implies chars_lt(#[trigger] ns[m], #[trigger] ns[n]) by {
                    if n < p {
                        assert(ns[m] == old_rs[m] && ns[n] == old_rs[n]);
                    } else if n == p {
                        assert(ns[m] == old_rs[m] && ns[n] == x);
                    } else {
                        assert(ns[(n - 1) + 1] == old_rs[n - 1]);
                        if m < p {
                            assert(ns[m] == old_rs[m]);
                            assert(chars_lt(old_rs[m], x));
                            if n - 1 == p {
                                lemma_chars_lt_trans(old_rs[m], x, old_rs[p as int]);
                            } else {
                                assert(chars_lt(old_rs[p as int], old_rs[n - 1]));
                                lemma_chars_lt_trans(x, old_rs[p as int], old_rs[n - 1]);
                                lemma_chars_lt_trans(old_rs[m], x, old_rs[n - 1]);
                            }
                        } else if m == p {
                            assert(ns[m] == x);
                            if n - 1 == p {
                                assert(chars_lt(x, old_rs[p as int]));
                            } else {
                                assert(chars_lt(old_rs[p as int], old_rs[n - 1]));
                                lemma_chars_lt_trans(x, old_rs[p as int], old_rs[n - 1]);
                            }
                        } else {
                            assert(ns[(m - 1) + 1] == old_rs[m - 1]);
                        }
                    }
                }
                assert forall|y: Seq<char>|
                    ns.contains(y) <==> vs.take(i as int + 1).contains(y) by {
                    lemma_insert_contains(old_rs, p as int, x, y);
                    lemma_push_contains(vs.take(i as int), x, y);
                }
            }
        }
        i += 1;
    }
    proof {
        assert(vs.take(vs.len() as int) =~= vs);
    }
    r
}

/// Pushing adds exactly one possible member.
proof fn lemma_push_contains(s: Seq<Seq<char>>, x: Seq<char>, y: Seq<char>)
    ensures
        s.push(x).contains(y) <==> (s.contains(y) || y == x),
{
    if s.push(x).contains(y) {
        let k = choose|k: int| 0 <= k < s.push(x).len() && s.push(x)[k] == y;
        if k < s.len() {
            assert(s[k] == y);
        }
    }
    if s.contains(y) {
        let k = choose|k: int| 0 <= k < s.len() && s[k] == y;
        assert(s.push(x)[k] == y);
    }
    assert(s.push(x)[s.len() as int] == x);
}

/// Inserting adds exactly one possible member.
proof fn lemma_insert_contains(s: Seq<Seq<char>>, p: int, x: Seq<char>, y: Seq<char>)
    requires
        0 <= p <= s.len(),
    ensures
        s.insert(p, x).contains(y) <==> (s.contains(y) || y == x),
{
    s.insert_ensures(p, x);
    let ns = s.insert(p, x);
    if ns.contains(y) {
        let k = choose|k: int| 0 <= k < ns.len() && ns[k] == y;
        if k < p {
            assert(s[k] == y);
        } else if k > p {
            assert(ns[(k - 1) + 1] == s[k - 1]);
            assert(s[k - 1] == y);
        }
    }
    if s.contains(y) {
        let k = choose|k: int| 0 <= k < s.len() && s[k] == y;
        if k < p {
            assert(ns[k] == y);
        } else {
            assert(ns[k + 1] == y);
        }
    }
    assert(ns[p] == x);
}

} // verus!
