//! Rime `.dict.yaml` dictionaries: their YAML header, their `import_tables`, and the group of
//! dictionaries that import one another.
use vstd::prelude::*;
use crate::deployer::Platform;
use crate::paths::{
    join, join_path, dictionary_extension, string_texts, path_keys, key_components_of, texts,
    same_components, components_lt, components_less, path_lt, lemma_components_order,
    component_order,
};
use crate::order::{lex_order, strict_total_order};
use crate::paths::{parent, parent_path, same_path, paths_equal, file_name, has_dictionary_file_name, is_separator, lemma_join_file_name, lemma_dictionary_file_names, has_drive_prefix};
use crate::text::{
    chars_of, string_of, string_of_range, trim, trim_bounds, range_equals, ends_with, str_ends_with,
    concat,
};
use crate::yaml::{yaml_sequence_at, yaml_sequence_items, option_texts};

verus! {

/// The position of the first `\n` at or after `i` in `s`, or the length of `s`.
pub open spec fn next_newline(s: Seq<char>, i: int) -> int
    decreases s.len() - i,
{
    if i >= s.len() {
        s.len() as int
    } else if s[i] == '\n' {
        i
    } else {
        next_newline(s, i + 1)
    }
}

/// The first newline at or after `i` lies between `i` and the end.
pub proof fn lemma_next_newline_bounds(s: Seq<char>, i: int)
    requires
        0 <= i <= s.len(),
    ensures
        i <= next_newline(s, i) <= s.len(),
        next_newline(s, i) < s.len() ==> s[next_newline(s, i)] == '\n',
    decreases s.len() - i,
{
    if i < s.len() && s[i] != '\n' {
        lemma_next_newline_bounds(s, i + 1);
    }
}

/// A line without its line break: a `\r` goes with a `\n` that ends the line.
pub open spec fn line_text(piece: Seq<char>, terminated: bool) -> Seq<char> {
    if terminated && piece.len() > 0 && piece.last() == '\r' {
        piece.drop_last()
    } else {
        piece
    }
}

/// The lines of `s` from position `start` on, as `str::lines` yields them.
pub open spec fn lines_from(s: Seq<char>, start: int) -> Seq<Seq<char>>
    decreases s.len() - start,
{
    if start >= s.len() || start < 0 {
        seq![]
    } else {
        let e = next_newline(s, start);
        if e < start || e > s.len() {
            seq![]
        } else if e == s.len() {
            seq![line_text(s.subrange(start, e), false)]
        } else {
            seq![line_text(s.subrange(start, e), true)] + lines_from(s, e + 1)
        }
    }
}

/// The lines of `s`, as `str::lines` yields them.
pub open spec fn lines(s: Seq<char>) -> Seq<Seq<char>> {
    lines_from(s, 0)
}

/// The text `...`, which ends a YAML document.
pub open spec fn document_end() -> Seq<char> {
    seq!['.', '.', '.']
}

/// Whether a line ends the YAML header: its trimmed text is `...`.
pub open spec fn is_header_end_line(line: Seq<char>) -> bool {
    trim(line) == document_end()
}

/// The lines before the first line that ends the header.
pub open spec fn header_lines(ls: Seq<Seq<char>>) -> Seq<Seq<char>>
    decreases ls.len(),
{
    if ls.len() == 0 || is_header_end_line(ls[0]) {
        seq![]
    } else {
        seq![ls[0]] + header_lines(ls.drop_first())
    }
}

/// Lines joined with `\n`.
pub open spec fn join_lines(ls: Seq<Seq<char>>) -> Seq<char>
    decreases ls.len(),
{
    if ls.len() == 0 {
        seq![]
    } else if ls.len() == 1 {
        ls[0]
    } else {
        join_lines(ls.drop_last()).push('\n') + ls.last()
    }
}

/// The YAML header of a dictionary: its lines before the first `...` line, joined with `\n`.
pub open spec fn header_text(content: Seq<char>) -> Seq<char> {
    join_lines(header_lines(lines(content)))
}

/// The strings among `items`, in order.
pub open spec fn strings_only(items: Seq<Option<Seq<char>>>) -> Seq<Seq<char>>
    decreases items.len(),
{
    if items.len() == 0 {
        seq![]
    } else {
        (match items[0] {
            Some(s) => seq![s],
            None => seq![],
        }) + strings_only(items.drop_first())
    }
}

/// The key under which a dictionary header lists the tables that it imports.
pub open spec fn import_tables_key() -> Seq<char> {
    seq!['i', 'm', 'p', 'o', 'r', 't', '_', 't', 'a', 'b', 'l', 'e', 's']
}

/// The prefix of the error for a header that is not valid YAML.
pub open spec fn invalid_header_prefix() -> Seq<char> {
    "invalid-yaml-header: "@
}

/// The tables that a dictionary with this content imports, or `None` when its header is
/// not valid YAML.
pub open spec fn imported_tables_of(content: Seq<char>) -> Option<Seq<Seq<char>>> {
    match yaml_sequence_at(header_text(content), import_tables_key()) {
        None => None,
        Some(None) => Some(seq![]),
        Some(Some(items)) => Some(strings_only(items)),
    }
}

/// Whether `message` is an error for a header that is not valid YAML.
pub open spec fn is_invalid_header_error(message: Seq<char>) -> bool {
    message.len() >= invalid_header_prefix().len() && message.subrange(
        0,
        invalid_header_prefix().len() as int,
    ) == invalid_header_prefix()
}

/// Whether `line` ends a dictionary's YAML header: its trimmed text is `...`.
pub fn is_header_end(line: &str) -> (r: bool)
    ensures
        r == is_header_end_line(line@),
{
    let v = chars_of(line);
    let (a, b) = trim_bounds(&v, 0, v.len());
    assert(v@.subrange(0, v@.len() as int) == v@);
    let dots = chars_of("...");
    proof {
        reveal_strlit("...");
    }
    assert(dots@ =~= document_end());
    range_equals(&v, a, b, &dots)
}

/// The YAML header of a dictionary.
pub fn header_of(content: &str) -> (r: String)
    ensures
        r@ == header_text(content@),
{
    let v = chars_of(content);
    let ghost s = v@;
    let mut out: Vec<char> = Vec::new();
    let mut pos: usize = 0;
    let ghost mut acc: Seq<Seq<char>> = seq![];
    let mut any = false;
    let dots = chars_of("...");
    proof {
        reveal_strlit("...");
    }
    assert(dots@ =~= document_end());
    while pos < v.len()
        invariant_except_break
            pos <= v.len(),
            s == v@,
            dots@ == document_end(),
            header_lines(lines(s)) == acc + header_lines(lines_from(s, pos as int)),
            out@ == join_lines(acc),
            any == (acc.len() > 0),
        ensures
            header_lines(lines(s)) == acc,
            out@ == join_lines(acc),
        decreases v.len() - pos,
    {
        let mut e = pos;
        while e < v.len() && v[e] != '\n'
            invariant
                pos <= e <= v.len(),
                s == v@,
                next_newline(s, pos as int) == next_newline(s, e as int),
            decreases v.len() - e,
        {
            e = e + 1;
        }
        let terminated = e < v.len();
        let le = if terminated && e > pos && v[e - 1] == '\r' {
            e - 1
        } else {
            e
        };
        let ghost line = line_text(s.subrange(pos as int, e as int), terminated);
        assert(s.subrange(pos as int, le as int) == line);
        proof {
            lemma_next_newline_bounds(s, pos as int);
        }
        assert(lines_from(s, pos as int) == seq![line] + lines_from(s, e + 1));
        let (a, b) = trim_bounds(&v, pos, le);
        if range_equals(&v, a, b, &dots) {
            assert(header_lines(lines_from(s, pos as int)) == Seq::<Seq<char>>::empty());
            assert(acc + Seq::<Seq<char>>::empty() =~= acc);
            break;
        }
        assert(header_lines(lines_from(s, pos as int)) == seq![line] + header_lines(
            lines_from(s, e + 1),
        )) by {
            assert((seq![line] + lines_from(s, e + 1)).drop_first() =~= lines_from(s, e + 1));
        }
        let ghost before = out@;
        if any {
            out.push('\n');
        }
        let ghost mid = out@;
        let mut k = pos;
        while k < le
            invariant
                pos <= k <= le <= v.len(),
                s == v@,
                out@ == mid + s.subrange(pos as int, k as int),
            decreases le - k,
        {
            out.push(v[k]);
            assert(mid + s.subrange(pos as int, k + 1) =~= (mid + s.subrange(
                pos as int,
                k as int,
            )).push(s[k as int]));
            k = k + 1;
        }
        proof {
            let next = acc.push(line);
            assert(next.drop_last() =~= acc);
            if acc.len() == 0 {
                assert(out@ =~= line);
                assert(join_lines(next) == line);
            } else {
                assert(out@ =~= join_lines(acc).push('\n') + line);
            }
            assert(acc + (seq![line] + header_lines(lines_from(s, e + 1))) =~= next + header_lines(
                lines_from(s, e + 1),
            ));
            acc = next;
        }
        any = true;
        if terminated {
            pos = e + 1;
        } else {
            pos = v.len();
            assert(lines_from(s, e + 1) == Seq::<Seq<char>>::empty());
        }
    }
    proof {
        if pos >= v.len() {
            assert(acc + header_lines(lines_from(s, pos as int)) =~= acc);
        }
    }
    string_of(&out)
}

/// The tables listed in a parsed header: `parsed` is what `serde_yaml` read under
/// `import_tables` (an error message; no sequence there; or the items of the sequence, a
/// string or not). The string items are the tables, in order; a parse error becomes
/// `invalid-yaml-header: <message>`.
pub fn tables_from_yaml(parsed: Result<Option<Vec<Option<String>>>, String>) -> (r: Result<Vec<String>, String>)
    ensures
        match parsed {
            Err(message) => r matches Err(e) && e@ == invalid_header_prefix() + message@,
            Ok(None) => r matches Ok(found) && found@.len() == 0,
            Ok(Some(items)) => r matches Ok(found) && string_texts(found@) == strings_only(option_texts(items@)),
        },
{
    proof {
        reveal_strlit("invalid-yaml-header: ");
    }
    match parsed {
        Err(message) => {
            Err(concat("invalid-yaml-header: ", message.as_str()))
        },
        Ok(None) => {
            let empty: Vec<String> = Vec::new();
            assert(string_texts(empty@) =~= Seq::<Seq<char>>::empty());
            Ok(empty)
        },
        Ok(Some(items)) => {
            let mut tables: Vec<String> = Vec::new();
            let mut i: usize = 0;
            assert(option_texts(items@).skip(0) =~= option_texts(items@));
            assert(string_texts(tables@) =~= Seq::<Seq<char>>::empty());
            while i < items.len()
                invariant
                    i <= items.len(),
                    strings_only(option_texts(items@)) == string_texts(tables@) + strings_only(
                        option_texts(items@).skip(i as int),
                    ),
                decreases items.len() - i,
            {
                let ghost rest = option_texts(items@).skip(i as int);
                assert(rest.drop_first() =~= option_texts(items@).skip(i + 1));
                assert(rest[0] == option_texts(items@)[i as int]);
                match &items[i] {
                    Some(table) => {
                        let ghost before = string_texts(tables@);
                        tables.push(crate::text::copy_string(table));
                        assert(string_texts(tables@) =~= before.push(table@));
                        assert(before + strings_only(rest) =~= string_texts(tables@) + strings_only(
                            option_texts(items@).skip(i + 1),
                        ));
                    },
                    None => {
                        assert(strings_only(rest) =~= strings_only(
                            option_texts(items@).skip(i + 1),
                        ));
                    },
                }
                i = i + 1;
            }
            proof {
                assert(option_texts(items@).skip(0) =~= option_texts(items@));
                assert(option_texts(items@).skip(items@.len() as int) =~= Seq::<
                    Option<Seq<char>>,
                >::empty());
                assert(string_texts(tables@) + Seq::<Seq<char>>::empty() =~= string_texts(
                    tables@,
                ));
            }
            Ok(tables)
        },
    }
}

/// The tables that a dictionary imports: the string items of the `import_tables` sequence in
/// its YAML header (the text before its first `...` line). Items that are not strings are
/// left out; a header that is not valid YAML is an error whose message starts with
/// `invalid-yaml-header: `.
pub fn imported_tables(content: &str) -> (r: Result<Vec<String>, String>)
    ensures
        match imported_tables_of(content@) {
            None => r matches Err(message) && is_invalid_header_error(message@),
            Some(tables) => r matches Ok(found) && string_texts(found@) == tables,
        },
{
    let header = header_of(content);
    proof {
        reveal_strlit("import_tables");
        reveal_strlit("invalid-yaml-header: ");
    }
    assert("import_tables"@ =~= import_tables_key());
    let parsed = yaml_sequence_items(header.as_str(), "import_tables");
    let r = tables_from_yaml(parsed);
    proof {
        if r is Err {
            let e = r->Err_0;
            assert(e@.subrange(0, invalid_header_prefix().len() as int) =~= invalid_header_prefix());
        }
        if r is Ok {
            let found = r->Ok_0;
            if found@.len() == 0 {
                assert(string_texts(found@) =~= Seq::<Seq<char>>::empty());
            }
        }
    }
    r
}

/// Checks a path that the user asks to open: it must end with `.dict.yaml`
/// (`只能打开 .dict.yaml 文件` otherwise).
pub fn check_read_path(path: &str) -> (r: Result<(), String>)
    ensures
        r is Ok <==> ends_with(path@, dictionary_extension()),
        r matches Err(e) ==> e@ == "只能打开 .dict.yaml 文件"@,
{
    proof {
        reveal_strlit(".dict.yaml");
        reveal_strlit("只能打开 .dict.yaml 文件");
    }
    assert(".dict.yaml"@ =~= dictionary_extension());
    if str_ends_with(path, ".dict.yaml") {
        Ok(())
    } else {
        Err(String::from_str("只能打开 .dict.yaml 文件"))
    }
}

/// Checks a path whose dictionary group the user asks to open: it must end with
/// `.dict.yaml` (`invalid-dictionary-extension` otherwise).
pub fn check_group_path(path: &str) -> (r: Result<(), String>)
    ensures
        r is Ok <==> ends_with(path@, dictionary_extension()),
        r matches Err(e) ==> e@ == "invalid-dictionary-extension"@,
{
    proof {
        reveal_strlit(".dict.yaml");
        reveal_strlit("invalid-dictionary-extension");
    }
    assert(".dict.yaml"@ =~= dictionary_extension());
    if str_ends_with(path, ".dict.yaml") {
        Ok(())
    } else {
        Err(String::from_str("invalid-dictionary-extension"))
    }
}

/// The file of an imported table: `<table>.dict.yaml` in `directory`, or `table` itself there
/// when it already ends with `.dict.yaml`.
pub open spec fn dictionary_file_path(platform: Platform, directory: Seq<char>, table: Seq<char>) -> Seq<
    char,
> {
    if ends_with(table, dictionary_extension()) {
        join_path(platform, directory, table)
    } else {
        join_path(platform, directory, table + dictionary_extension())
    }
}

/// The file of an imported table in `directory`.
pub fn dictionary_path(platform: Platform, directory: &str, table: &str) -> (r: String)
    ensures
        r@ == dictionary_file_path(platform, directory@, table@),
{
    proof {
        reveal_strlit(".dict.yaml");
    }
    assert(".dict.yaml"@ =~= dictionary_extension());
    if str_ends_with(table, ".dict.yaml") {
        join(platform, directory, table)
    } else {
        let name = concat(table, ".dict.yaml");
        join(platform, directory, name.as_str())
    }
}


/// A dictionary found beside the selected one: its resolved path, and the resolved paths of
/// the tables that it imports and that exist.
pub struct GroupDefinition {
    pub path: String,
    pub imports: Vec<String>,
}

/// What identifies a path: its components, a Windows prefix by its parsed form, by which
/// `PathBuf` compares and hashes.
pub open spec fn path_key(platform: Platform, p: Seq<char>) -> Seq<Seq<char>> {
    path_keys(platform, p)
}

/// Whether `d` imports the path with key `k`.
pub open spec fn imports_key(platform: Platform, d: GroupDefinition, k: Seq<Seq<char>>) -> bool {
    exists|m: int| 0 <= m < d.imports@.len() && #[trigger] path_key(platform, d.imports@[m]@) == k
}

/// Whether `d` imports a path whose key is in `a`.
pub open spec fn imports_into(platform: Platform, d: GroupDefinition, a: Set<Seq<Seq<char>>>) -> bool {
    exists|m: int| 0 <= m < d.imports@.len() && a.contains(#[trigger] path_key(platform, d.imports@[m]@))
}

/// `a` with the keys of the dictionaries that import a member of `a`.
pub open spec fn grow(platform: Platform, defs: Seq<GroupDefinition>, a: Set<Seq<Seq<char>>>) -> Set<Seq<Seq<char>>> {
    a.union(
        Set::new(
            |x: Seq<Seq<char>>|
                exists|i: int|
                    0 <= i < defs.len() && #[trigger] path_key(platform, defs[i].path@) == x
                        && imports_into(platform, defs[i], a),
        ),
    )
}

/// The keys reached from the selected dictionary in `n` rounds of importers.
pub open spec fn reach(platform: Platform, selected: Seq<char>, defs: Seq<GroupDefinition>, n: nat) -> Set<
    Seq<Seq<char>>,
>
    decreases n,
{
    if n == 0 {
        set![path_key(platform, selected)]
    } else {
        grow(platform, defs, reach(platform, selected, defs, (n - 1) as nat))
    }
}

/// The keys of the selected dictionary and of every dictionary that imports it, directly or
/// through other dictionaries.
pub open spec fn ancestor_keys(platform: Platform, selected: Seq<char>, defs: Seq<GroupDefinition>) -> Set<
    Seq<Seq<char>>,
> {
    Set::new(|x: Seq<Seq<char>>| exists|n: nat| #[trigger] reach(platform, selected, defs, n).contains(x))
}

/// Whether every dictionary that imports a member of `a` is in `a`.
pub open spec fn is_closed(platform: Platform, defs: Seq<GroupDefinition>, a: Set<Seq<Seq<char>>>) -> bool {
    forall|i: int|
        0 <= i < defs.len() && #[trigger] imports_into(platform, defs[i], a) ==> a.contains(
            path_key(platform, defs[i].path@),
        )
}

/// The roots of the group: its members that no member imports.
pub open spec fn root_keys(platform: Platform, selected: Seq<char>, defs: Seq<GroupDefinition>) -> Set<
    Seq<Seq<char>>,
> {
    let a = ancestor_keys(platform, selected, defs);
    a.filter(
        |c: Seq<Seq<char>>|
            !exists|i: int|
                0 <= i < defs.len() && a.contains(path_key(platform, defs[i].path@))
                    && #[trigger] imports_key(platform, defs[i], c),
    )
}

/// Whether `roots` are the roots that the group discovery gives: when the group has roots,
/// those roots, each once, in path order, each the selected path or one of the definitions'
/// paths; when it has none (its members import one another in a cycle), the selected path.
pub open spec fn are_group_roots(platform: Platform, selected: Seq<char>, defs: Seq<GroupDefinition>, roots: Seq<
    Seq<char>,
>) -> bool {
    let r = root_keys(platform, selected, defs);
    if exists|c: Seq<Seq<char>>| r.contains(c) {
        &&& forall|i: int| 0 <= i < roots.len() ==> r.contains(#[trigger] path_key(platform, roots[i]))
        &&& forall|c: Seq<Seq<char>>|
            r.contains(c) ==> exists|i: int| 0 <= i < roots.len() && #[trigger] path_key(platform, roots[i]) == c
        &&& forall|i: int, j: int| 0 <= i < j < roots.len() ==> path_lt(platform, #[trigger] roots[i], #[trigger] roots[j])
        &&& forall|i: int|
            0 <= i < roots.len() ==> #[trigger] roots[i] == selected || exists|k: int|
                0 <= k < defs.len() && defs[k].path@ == roots[i]
    } else {
        roots == seq![selected]
    }
}

/// The set of keys held by a list of component lists.
pub open spec fn key_set(v: Seq<Vec<Vec<char>>>) -> Set<Seq<Seq<char>>> {
    Set::new(|x: Seq<Seq<char>>| exists|j: int| 0 <= j < v.len() && #[trigger] texts(v[j]@) == x)
}

/// The number of `false` entries.
pub open spec fn count_false(s: Seq<bool>) -> nat
    decreases s.len(),
{
    if s.len() == 0 {
        0
    } else {
        count_false(s.drop_last()) + if s.last() {
            0nat
        } else {
            1nat
        }
    }
}

proof fn lemma_count_false_decreases(s1: Seq<bool>, s2: Seq<bool>, i: int)
    requires
        s1.len() == s2.len(),
        forall|j: int| 0 <= j < s1.len() && s1[j] ==> s2[j],
        0 <= i < s1.len(),
        !s1[i],
        s2[i],
    ensures
        count_false(s2) < count_false(s1),
    decreases s1.len(),
{
    if i < s1.len() - 1 {
        lemma_count_false_decreases(s1.drop_last(), s2.drop_last(), i);
        lemma_count_false_le(s1.drop_last(), s2.drop_last());
    } else {
        lemma_count_false_le(s1.drop_last(), s2.drop_last());
    }
}

proof fn lemma_count_false_le(s1: Seq<bool>, s2: Seq<bool>)
    requires
        s1.len() == s2.len(),
        forall|j: int| 0 <= j < s1.len() && s1[j] ==> s2[j],
    ensures
        count_false(s2) <= count_false(s1),
    decreases s1.len(),
{
    if s1.len() > 0 {
        lemma_count_false_le(s1.drop_last(), s2.drop_last());
    }
}

/// Every key reached in any number of rounds is in a closed set that holds the selected key.
proof fn lemma_reach_within(platform: Platform, selected: Seq<char>, defs: Seq<GroupDefinition>, s: Set<Seq<Seq<char>>>, n: nat)
    requires
        s.contains(path_key(platform, selected)),
        is_closed(platform, defs, s),
    ensures
        reach(platform, selected, defs, n).subset_of(s),
    decreases n,
{
    if n > 0 {
        lemma_reach_within(platform, selected, defs, s, (n - 1) as nat);
        let prev = reach(platform, selected, defs, (n - 1) as nat);
        assert forall|x: Seq<Seq<char>>| reach(platform, selected, defs, n).contains(x) implies s.contains(x) by {
            if !prev.contains(x) {
                let i = choose|i: int|
                    0 <= i < defs.len() && #[trigger] path_key(platform, defs[i].path@) == x
                        && imports_into(platform, defs[i], prev);
                let m = choose|m: int|
                    0 <= m < defs[i].imports@.len() && prev.contains(
                        #[trigger] path_key(platform, defs[i].imports@[m]@),
                    );
                assert(imports_into(platform, defs[i], s));
            }
        }
    }
}

/// The group of the selected dictionary is the least set of keys that holds the selected
/// dictionary and every dictionary that imports one of its members.
pub proof fn lemma_ancestors_least_closed(platform: Platform, selected: Seq<char>, defs: Seq<GroupDefinition>, s: Set<Seq<Seq<char>>>)
    ensures
        ancestor_keys(platform, selected, defs).contains(path_key(platform, selected)),
        is_closed(platform, defs, ancestor_keys(platform, selected, defs)),
        s.contains(path_key(platform, selected)) && is_closed(platform, defs, s) ==> ancestor_keys(
            platform,
            selected,
            defs,
        ).subset_of(s),
{
    let a = ancestor_keys(platform, selected, defs);
    assert(reach(platform, selected, defs, 0).contains(path_key(platform, selected)));
    assert forall|i: int| 0 <= i < defs.len() && #[trigger] imports_into(platform, defs[i], a) implies a.contains(
        path_key(platform, defs[i].path@),
    ) by {
        let m = choose|m: int|
            0 <= m < defs[i].imports@.len() && a.contains(#[trigger] path_key(platform, defs[i].imports@[m]@));
        let k = path_key(platform, defs[i].imports@[m]@);
        let n = choose|n: nat| #[trigger] reach(platform, selected, defs, n).contains(k);
        assert(imports_into(platform, defs[i], reach(platform, selected, defs, n)));
        assert(reach(platform, selected, defs, n + 1).contains(path_key(platform, defs[i].path@)));
    }
    if s.contains(path_key(platform, selected)) && is_closed(platform, defs, s) {
        assert forall|x: Seq<Seq<char>>| a.contains(x) implies s.contains(x) by {
            let n = choose|n: nat| #[trigger] reach(platform, selected, defs, n).contains(x);
            lemma_reach_within(platform, selected, defs, s, n);
        }
    }
}

/// Whether the key `k` is among `list`.
fn key_among(list: &Vec<Vec<Vec<char>>>, k: &Vec<Vec<char>>) -> (r: bool)
    ensures
        r == key_set(list@).contains(texts(k@)),
{
    let mut j: usize = 0;
    while j < list.len()
        invariant
            j <= list.len(),
            forall|q: int| 0 <= q < j ==> texts(list@[q]@) != texts(k@),
        decreases list.len() - j,
    {
        if same_components(&list[j], k) {
            assert(texts(list@[j as int]@) == texts(k@));
            return true;
        }
        j = j + 1;
    }
    false
}

/// Whether one of `keys` is among `list`.
fn any_key_among(keys: &Vec<Vec<Vec<char>>>, list: &Vec<Vec<Vec<char>>>) -> (r: bool)
    ensures
        r == exists|m: int| 0 <= m < keys.len() && key_set(list@).contains(#[trigger] texts(keys@[m]@)),
{
    let mut m: usize = 0;
    while m < keys.len()
        invariant
            m <= keys.len(),
            forall|q: int| 0 <= q < m ==> !key_set(list@).contains(#[trigger] texts(keys@[q]@)),
        decreases keys.len() - m,
    {
        if key_among(list, &keys[m]) {
            return true;
        }
        m = m + 1;
    }
    false
}

/// The component lists of a list of paths.
fn keys_of(platform: Platform, paths: &Vec<String>) -> (r: Vec<Vec<Vec<char>>>)
    ensures
        r@.len() == paths@.len(),
        forall|i: int| 0 <= i < r.len() ==> #[trigger] texts(r@[i]@) == path_key(platform, paths@[i]@),
{
    let mut out: Vec<Vec<Vec<char>>> = Vec::new();
    let mut i: usize = 0;
    while i < paths.len()
        invariant
            i <= paths.len(),
            out@.len() == i,
            forall|q: int| 0 <= q < i ==> #[trigger] texts(out@[q]@) == path_key(platform, paths@[q]@),
        decreases paths.len() - i,
    {
        let v = chars_of(paths[i].as_str());
        out.push(key_components_of(platform, &v));
        i = i + 1;
    }
    out
}

/// The roots of the group of dictionaries that the selected dictionary belongs to.
///
/// `scan` holds the dictionaries found in the selected dictionary's directory, or `None`
/// when the directory could not be read (or the selected path has none): then the selected
/// dictionary is its own root. Otherwise the group is the selected dictionary with every
/// dictionary that imports it, directly or not; its roots are its members that no member
/// imports, in path order; a group without roots (a cycle) has the selected dictionary as
/// its root.
pub fn discover_group_roots(platform: Platform, selected: &String, scan: &Option<Vec<GroupDefinition>>) -> (r: Vec<String>)
    ensures
        match scan {
            None => string_texts(r@) == seq![selected@],
            Some(defs) => are_group_roots(platform, selected@, defs@, string_texts(r@)),
        },
{
    match scan {
        None => {
            let mut out: Vec<String> = Vec::new();
            out.push(crate::text::copy_string(selected));
            assert(string_texts(out@) =~= seq![selected@]);
            out
        },
        Some(defs) => group_roots(platform, selected, defs),
    }
}

/// The roots of the group of `selected` among the dictionaries `defs` of its directory.
fn group_roots(platform: Platform, selected: &String, defs: &Vec<GroupDefinition>) -> (r: Vec<String>)
    ensures
        are_group_roots(platform, selected@, defs@, string_texts(r@)),
{
    let ghost d = defs@;
    let ghost sel = selected@;
    let n = defs.len();
    // keys of the definitions and of their imports
    let mut def_keys: Vec<Vec<Vec<char>>> = Vec::new();
    let mut import_keys: Vec<Vec<Vec<Vec<char>>>> = Vec::new();
    let mut i: usize = 0;
    while i < n
        invariant
            n == defs.len(),
            d == defs@,
            i <= n,
            def_keys@.len() == i,
            import_keys@.len() == i,
            forall|q: int| 0 <= q < i ==> #[trigger] texts(def_keys@[q]@) == path_key(platform, d[q].path@),
            forall|q: int| 0 <= q < i ==> (#[trigger] import_keys@[q])@.len() == d[q].imports@.len(),
            forall|q: int, m: int|
                0 <= q < i && 0 <= m < d[q].imports@.len() ==> texts(#[trigger] import_keys@[q]@[m]@)
                    == path_key(platform, d[q].imports@[m]@),
        decreases n - i,
    {
        let v = chars_of(defs[i].path.as_str());
        def_keys.push(key_components_of(platform, &v));
        import_keys.push(keys_of(platform, &defs[i].imports));
        i = i + 1;
    }
    let sel_chars = chars_of(selected.as_str());
    let sel_key = key_components_of(platform, &sel_chars);
    let mut anc_keys: Vec<Vec<Vec<char>>> = Vec::new();
    let mut anc_paths: Vec<String> = Vec::new();
    anc_keys.push(sel_key);
    anc_paths.push(crate::text::copy_string(selected));
    let mut flags: Vec<bool> = Vec::new();
    let mut i: usize = 0;
    while i < n
        invariant
            n == defs.len(),
            d == defs@,
            i <= n,
            flags@.len() == i,
            def_keys@.len() == n,
            anc_keys@.len() == 1,
            texts(anc_keys@[0]@) == path_key(platform, sel),
            forall|q: int| 0 <= q < n ==> #[trigger] texts(def_keys@[q]@) == path_key(platform, d[q].path@),
            forall|q: int| 0 <= q < i ==> flags@[q] == key_set(anc_keys@).contains(#[trigger] texts(def_keys@[q]@)),
        decreases n - i,
    {
        flags.push(key_among(&anc_keys, &def_keys[i]));
        i = i + 1;
    }
    proof {
        assert(key_set(anc_keys@) =~= set![path_key(platform, sel)]) by {
            assert(texts(anc_keys@[0]@) == path_key(platform, sel));
        }
        assert(reach(platform, sel, d, 0) == set![path_key(platform, sel)]);
    }
    // grow the group one importer at a time until no dictionary outside it imports a member
    loop
        invariant
            n == defs.len(),
            d == defs@,
            def_keys@.len() == n,
            import_keys@.len() == n,
            flags@.len() == n,
            anc_keys@.len() == anc_paths@.len(),
            anc_keys@.len() >= 1,
            forall|q: int| 0 <= q < n ==> #[trigger] texts(def_keys@[q]@) == path_key(platform, d[q].path@),
            forall|q: int| 0 <= q < n ==> (#[trigger] import_keys@[q])@.len() == d[q].imports@.len(),
            forall|q: int, m: int|
                0 <= q < n && 0 <= m < d[q].imports@.len() ==> texts(#[trigger] import_keys@[q]@[m]@)
                    == path_key(platform, d[q].imports@[m]@),
            forall|j: int| 0 <= j < anc_keys@.len() ==> #[trigger] texts(anc_keys@[j]@) == path_key(platform, anc_paths@[j]@),
            forall|q: int| 0 <= q < n ==> flags@[q] == key_set(anc_keys@).contains(#[trigger] texts(def_keys@[q]@)),
            key_set(anc_keys@).contains(path_key(platform, sel)),
            key_set(anc_keys@).subset_of(ancestor_keys(platform, sel, d)),
            forall|j: int, k: int| 0 <= j < k < anc_keys@.len() ==> texts(#[trigger] anc_keys@[j]@) != texts(#[trigger] anc_keys@[k]@),
            forall|j: int|
                0 <= j < anc_paths@.len() ==> #[trigger] anc_paths@[j]@ == sel || exists|k: int|
                    0 <= k < d.len() && d[k].path@ == anc_paths@[j]@,
        ensures
            n == defs.len(),
            d == defs@,
            def_keys@.len() == n,
            import_keys@.len() == n,
            flags@.len() == n,
            anc_keys@.len() == anc_paths@.len(),
            anc_keys@.len() >= 1,
            forall|q: int| 0 <= q < n ==> #[trigger] texts(def_keys@[q]@) == path_key(platform, d[q].path@),
            forall|q: int| 0 <= q < n ==> (#[trigger] import_keys@[q])@.len() == d[q].imports@.len(),
            forall|q: int, m: int|
                0 <= q < n && 0 <= m < d[q].imports@.len() ==> texts(#[trigger] import_keys@[q]@[m]@)
                    == path_key(platform, d[q].imports@[m]@),
            forall|j: int| 0 <= j < anc_keys@.len() ==> #[trigger] texts(anc_keys@[j]@) == path_key(platform, anc_paths@[j]@),
            forall|q: int| 0 <= q < n ==> flags@[q] == key_set(anc_keys@).contains(#[trigger] texts(def_keys@[q]@)),
            key_set(anc_keys@).contains(path_key(platform, sel)),
            key_set(anc_keys@) == ancestor_keys(platform, sel, d),
            forall|j: int, k: int| 0 <= j < k < anc_keys@.len() ==> texts(#[trigger] anc_keys@[j]@) != texts(#[trigger] anc_keys@[k]@),
            forall|j: int|
                0 <= j < anc_paths@.len() ==> #[trigger] anc_paths@[j]@ == sel || exists|k: int|
                    0 <= k < d.len() && d[k].path@ == anc_paths@[j]@,
        decreases count_false(flags@),
    {
        let ghost a = key_set(anc_keys@);
        // the first dictionary outside the group that imports a member
        let mut found: Option<usize> = None;
        let mut i: usize = 0;
        while i < n
            invariant
                n == defs.len(),
                d == defs@,
                i <= n,
                flags@.len() == n,
                import_keys@.len() == n,
                a == key_set(anc_keys@),
                forall|q: int| 0 <= q < n ==> (#[trigger] import_keys@[q])@.len() == d[q].imports@.len(),
                forall|q: int, m: int|
                    0 <= q < n && 0 <= m < d[q].imports@.len() ==> texts(#[trigger] import_keys@[q]@[m]@)
                        == path_key(platform, d[q].imports@[m]@),
                found is None ==> forall|q: int|
                    0 <= q < i && !flags@[q] ==> !#[trigger] imports_into(platform, d[q], a),
                found matches Some(f) ==> f < n && !flags@[f as int] && imports_into(platform, d[f as int], a),
            ensures
                found is None ==> forall|q: int|
                    0 <= q < n && !flags@[q] ==> !#[trigger] imports_into(platform, d[q], a),
                found matches Some(f) ==> f < n && !flags@[f as int] && imports_into(platform, d[f as int], a),
            decreases n - i,
        {
            if !flags[i] {
                let hit = any_key_among(&import_keys[i], &anc_keys);
                assert(hit == imports_into(platform, d[i as int], a)) by {
                    if hit {
                        let m = choose|m: int|
                            0 <= m < import_keys@[i as int]@.len() && key_set(anc_keys@).contains(
                                #[trigger] texts(import_keys@[i as int]@[m]@),
                            );
                        assert(a.contains(path_key(platform, d[i as int].imports@[m]@)));
                    }
                    if imports_into(platform, d[i as int], a) {
                        let m = choose|m: int|
                            0 <= m < d[i as int].imports@.len() && a.contains(
                                #[trigger] path_key(platform, d[i as int].imports@[m]@),
                            );
                        assert(key_set(anc_keys@).contains(texts(import_keys@[i as int]@[m]@)));
                    }
                }
                if hit {
                    found = Some(i);
                    break;
                }
            }
            i = i + 1;
        }
        match found {
            None => {
                proof {
                    assert(is_closed(platform, d, a)) by {
                        assert forall|q: int| 0 <= q < d.len() && #[trigger] imports_into(platform, d[q], a) implies a.contains(
                            path_key(platform, d[q].path@),
                        ) by {
                            assert(flags@[q]);
                            assert(texts(def_keys@[q]@) == path_key(platform, d[q].path@));
                        }
                    }
                    lemma_ancestors_least_closed(platform, sel, d, a);
                    assert(a =~= ancestor_keys(platform, sel, d));
                }
                break;
            },
            Some(f) => {
                let ghost old_flags = flags@;
                let ghost old_keys = anc_keys@;
                let key = components_of_key(&def_keys[f]);
                proof {
                    // the new key belongs to the group
                    let m = choose|m: int|
                        0 <= m < d[f as int].imports@.len() && a.contains(
                            #[trigger] path_key(platform, d[f as int].imports@[m]@),
                        );
                    let k = path_key(platform, d[f as int].imports@[m]@);
                    let rn = choose|rn: nat| #[trigger] reach(platform, sel, d, rn).contains(k);
                    assert(imports_into(platform, d[f as int], reach(platform, sel, d, rn)));
                    assert(reach(platform, sel, d, rn + 1).contains(path_key(platform, d[f as int].path@)));
                    assert(ancestor_keys(platform, sel, d).contains(path_key(platform, d[f as int].path@)));
                }
                anc_keys.push(key);
                anc_paths.push(crate::text::copy_string(&defs[f].path));
                proof {
                    assert(key_set(anc_keys@) =~= a.insert(path_key(platform, d[f as int].path@))) by {
                        assert forall|x: Seq<Seq<char>>| key_set(anc_keys@).contains(x) implies a.insert(
                            path_key(platform, d[f as int].path@),
                        ).contains(x) by {
                            let j = choose|j: int| 0 <= j < anc_keys@.len() && #[trigger] texts(anc_keys@[j]@) == x;
                            if j < old_keys.len() {
                                assert(old_keys[j] == anc_keys@[j]);
                            }
                        }
                        assert forall|x: Seq<Seq<char>>| a.insert(path_key(platform, d[f as int].path@)).contains(x) implies key_set(
                            anc_keys@,
                        ).contains(x) by {
                            if a.contains(x) {
                                let j = choose|j: int| 0 <= j < old_keys.len() && #[trigger] texts(old_keys[j]@) == x;
                                assert(anc_keys@[j] == old_keys[j]);
                            } else {
                                assert(texts(anc_keys@[old_keys.len() as int]@) == x);
                            }
                        }
                    }
                    assert(!a.contains(texts(def_keys@[f as int]@)));
                }
                // mark every definition with the new key
                let mut q: usize = 0;
                while q < n
                    invariant
                        n == defs.len(),
                        q <= n,
                        flags@.len() == n,
                        def_keys@.len() == n,
                        f < n,
                        anc_keys@.len() == old_keys.len() + 1,
                        texts(anc_keys@[old_keys.len() as int]@) == texts(def_keys@[f as int]@),
                        forall|j: int| 0 <= j < n && old_flags[j] ==> flags@[j],
                        forall|j: int| 0 <= j < q ==> flags@[j] == key_set(anc_keys@).contains(#[trigger] texts(def_keys@[j]@)),
                        forall|j: int| q <= j < n ==> flags@[j] == old_flags[j],
                        key_set(anc_keys@) == a.insert(texts(def_keys@[f as int]@)),
                        forall|j: int| 0 <= j < n ==> old_flags[j] == a.contains(#[trigger] texts(def_keys@[j]@)),
                    decreases n - q,
                {
                    if !flags[q] && same_components(&def_keys[q], &def_keys[f]) {
                        flags.set(q, true);
                    }
                    q = q + 1;
                }
                proof {
                    assert(flags@[f as int]);
                    lemma_count_false_decreases(old_flags, flags@, f as int);
                }
            },
        }
    }
    let ghost a = ancestor_keys(platform, sel, d);
    assert forall|q: int| 0 <= q < n implies flags@[q] == a.contains(#[trigger] path_key(platform, d[q].path@)) by {
        assert(texts(def_keys@[q]@) == path_key(platform, d[q].path@));
    }
    // the members that no member imports
    let mut roots: Vec<usize> = Vec::new();
    proof {
        lemma_components_order(platform);
    }
    let mut j: usize = 0;
    while j < anc_keys.len()
        invariant
            j <= anc_keys.len(),
            key_set(anc_keys@) == a,
            a == ancestor_keys(platform, sel, d),
            sel == selected@,
            flags@.len() == n,
            import_keys@.len() == n,
            n == defs.len(),
            d == defs@,
            forall|q: int| 0 <= q < n ==> (#[trigger] import_keys@[q])@.len() == d[q].imports@.len(),
            forall|q: int, m: int|
                0 <= q < n && 0 <= m < d[q].imports@.len() ==> texts(#[trigger] import_keys@[q]@[m]@)
                    == path_key(platform, d[q].imports@[m]@),
            forall|q: int| 0 <= q < n ==> flags@[q] == a.contains(#[trigger] path_key(platform, d[q].path@)),
            strict_total_order(lex_order(component_order(platform))),
            // roots hold the indices of the root members seen so far, in increasing path order
            forall|x: int| 0 <= x < roots@.len() ==> #[trigger] roots@[x] < j,
            forall|x: int, y: int| 0 <= x < y < roots@.len() ==> components_lt(platform, texts(anc_keys@[#[trigger] roots@[x] as int]@), texts(anc_keys@[#[trigger] roots@[y] as int]@)),
            forall|x: int| 0 <= x < roots@.len() ==> root_keys(platform, sel, d).contains(texts(anc_keys@[#[trigger] roots@[x] as int]@)),
            forall|k: int| 0 <= k < j && root_keys(platform, sel, d).contains(#[trigger] texts(anc_keys@[k]@)) ==> exists|x: int| 0 <= x < roots@.len() && roots@[x] == k,
            forall|jj: int, k: int| 0 <= jj < k < anc_keys@.len() ==> texts(#[trigger] anc_keys@[jj]@) != texts(#[trigger] anc_keys@[k]@),
        decreases anc_keys.len() - j,
    {
        // is anc_keys[j] imported by a member?
        let mut imported = false;
        let mut q: usize = 0;
        while q < n
            invariant
                q <= n,
                n == defs.len(),
                d == defs@,
                flags@.len() == n,
                import_keys@.len() == n,
                j < anc_keys.len(),
                forall|qq: int| 0 <= qq < n ==> (#[trigger] import_keys@[qq])@.len() == d[qq].imports@.len(),
                forall|qq: int, m: int|
                    0 <= qq < n && 0 <= m < d[qq].imports@.len() ==> texts(#[trigger] import_keys@[qq]@[m]@)
                        == path_key(platform, d[qq].imports@[m]@),
                imported == exists|qq: int| 0 <= qq < q && flags@[qq] && #[trigger] imports_key(platform, d[qq], texts(anc_keys@[j as int]@)),
            decreases n - q,
        {
            if flags[q] {
                let one = vec_single(&anc_keys[j]);
                let hit = any_key_among(&import_keys[q], &one);
                assert(hit == imports_key(platform, d[q as int], texts(anc_keys@[j as int]@))) by {
                    assert(key_set(one@) =~= set![texts(anc_keys@[j as int]@)]) by {
                        assert(texts(one@[0]@) == texts(anc_keys@[j as int]@));
                    }
                    if hit {
                        let m = choose|m: int| 0 <= m < import_keys@[q as int].len() && key_set(one@).contains(#[trigger] texts(import_keys@[q as int]@[m]@));
                        assert(path_key(platform, d[q as int].imports@[m]@) == texts(anc_keys@[j as int]@));
                    }
                    if imports_key(platform, d[q as int], texts(anc_keys@[j as int]@)) {
                        let m = choose|m: int| 0 <= m < d[q as int].imports@.len() && #[trigger] path_key(platform, d[q as int].imports@[m]@) == texts(anc_keys@[j as int]@);
                        assert(key_set(one@).contains(texts(import_keys@[q as int]@[m]@)));
                    }
                }
                if hit {
                    imported = true;
                }
            }
            q = q + 1;
        }
        let ghost c = texts(anc_keys@[j as int]@);
        assert(a.contains(c)) by {
            assert(key_set(anc_keys@).contains(c));
        }
        assert(imported == !root_keys(platform, sel, d).contains(c)) by {
            if imported {
                let qq = choose|qq: int| 0 <= qq < n && flags@[qq] && #[trigger] imports_key(platform, d[qq], c);
                assert(a.contains(path_key(platform, d[qq].path@)));
            }
            if !root_keys(platform, sel, d).contains(c) {
                assert(exists|qq: int| 0 <= qq < d.len() && a.contains(path_key(platform, d[qq].path@)) && #[trigger] imports_key(platform, d[qq], c));
                let qq = choose|qq: int| 0 <= qq < d.len() && a.contains(path_key(platform, d[qq].path@)) && #[trigger] imports_key(platform, d[qq], c);
                assert(flags@[qq]);
            }
        }
        if !imported {
            // insert j at its place in path order
            let mut p: usize = 0;
            while p < roots.len() && !components_less(platform, &anc_keys[j], &anc_keys[roots[p]])
                invariant
                    p <= roots.len(),
                    forall|x: int| 0 <= x < roots@.len() ==> #[trigger] roots@[x] < j,
                    j < anc_keys.len(),
                    forall|x: int| 0 <= x < p ==> !components_lt(platform, c, texts(anc_keys@[#[trigger] roots@[x] as int]@)),
                    c == texts(anc_keys@[j as int]@),
                decreases roots.len() - p,
            {
                p = p + 1;
            }
            let ghost old_roots = roots@;
            roots.insert(p, j);
            proof {
                let lt = lex_order(component_order(platform));
                assert forall|x: int, y: int| 0 <= x < y < roots@.len() implies components_lt(platform, texts(anc_keys@[#[trigger] roots@[x] as int]@), texts(anc_keys@[#[trigger] roots@[y] as int]@)) by {
                    if x < p && y == p {
                        let kx = texts(anc_keys@[old_roots[x] as int]@);
                        assert(!components_lt(platform, c, kx));
                        assert(kx != c);
                        assert(lt(c, kx) || lt(kx, c));
                    } else if x == p && y > p {
                        let ky = texts(anc_keys@[old_roots[y - 1] as int]@);
                        let kp = texts(anc_keys@[old_roots[p as int] as int]@);
                        assert(components_lt(platform, c, kp));
                        if y - 1 > p {
                            assert(components_lt(platform, kp, ky));
                            assert(lt(c, kp) && lt(kp, ky));
                        }
                    } else if x < p && y > p {
                        assert(components_lt(platform, texts(anc_keys@[old_roots[x] as int]@), texts(anc_keys@[old_roots[y - 1] as int]@)));
                    } else if x > p {
                        assert(components_lt(platform, texts(anc_keys@[old_roots[x - 1] as int]@), texts(anc_keys@[old_roots[y - 1] as int]@)));
                    } else {
                        assert(components_lt(platform, texts(anc_keys@[old_roots[x] as int]@), texts(anc_keys@[old_roots[y] as int]@)));
                    }
                }
                assert forall|x: int| 0 <= x < roots@.len() implies root_keys(platform, sel, d).contains(texts(anc_keys@[#[trigger] roots@[x] as int]@)) by {
                    if x < p {
                        assert(roots@[x] == old_roots[x]);
                    } else if x > p {
                        assert(roots@[x] == old_roots[x - 1]);
                    }
                }
                assert forall|k: int| 0 <= k < j + 1 && root_keys(platform, sel, d).contains(#[trigger] texts(anc_keys@[k]@)) implies exists|x: int| 0 <= x < roots@.len() && roots@[x] == k by {
                    if k == j {
                        assert(roots@[p as int] == j);
                    } else {
                        let x = choose|x: int| 0 <= x < old_roots.len() && old_roots[x] == k;
                        if x < p {
                            assert(roots@[x] == k);
                        } else {
                            assert(roots@[x + 1] == k);
                        }
                    }
                }
            }
        }
        j = j + 1;
    }
    if roots.len() == 0 {
        proof {
            assert forall|cc: Seq<Seq<char>>| !root_keys(platform, sel, d).contains(cc) by {
                if root_keys(platform, sel, d).contains(cc) {
                    assert(a.contains(cc));
                    let k = choose|k: int| 0 <= k < anc_keys@.len() && #[trigger] texts(anc_keys@[k]@) == cc;
                }
            }
        }
        let mut out: Vec<String> = Vec::new();
        out.push(crate::text::copy_string(selected));
        assert(string_texts(out@) =~= seq![sel]);
        return out;
    }
    let mut out: Vec<String> = Vec::new();
    let mut x: usize = 0;
    assert(key_set(anc_keys@) == a);
    while x < roots.len()
        invariant
            x <= roots.len(),
            out@.len() == x,
            forall|y: int| 0 <= y < roots@.len() ==> #[trigger] roots@[y] < anc_paths@.len(),
            anc_paths@.len() == anc_keys@.len(),
            forall|y: int| 0 <= y < x ==> (#[trigger] out@[y])@ == anc_paths@[roots@[y] as int]@,
        decreases roots.len() - x,
    {
        out.push(crate::text::copy_string(&anc_paths[roots[x]]));
        x = x + 1;
    }
    proof {
        let rk = root_keys(platform, sel, d);
        let outs = string_texts(out@);
        assert forall|y: int| 0 <= y < outs.len() implies #[trigger] path_key(platform, outs[y]) == texts(anc_keys@[roots@[y] as int]@) by {
            assert(outs[y] == anc_paths@[roots@[y] as int]@);
        }
        assert(rk.contains(texts(anc_keys@[roots@[0] as int]@)));
        assert forall|y: int| 0 <= y < outs.len() implies rk.contains(#[trigger] path_key(platform, outs[y])) by {
            assert(path_key(platform, outs[y]) == texts(anc_keys@[roots@[y] as int]@));
        }
        assert forall|cc: Seq<Seq<char>>| rk.contains(cc) implies exists|y: int| 0 <= y < outs.len() && #[trigger] path_key(platform, outs[y]) == cc by {
            assert(a.contains(cc));
            let k = choose|k: int| 0 <= k < anc_keys@.len() && #[trigger] texts(anc_keys@[k]@) == cc;
            let y = choose|y: int| 0 <= y < roots@.len() && roots@[y] == k;
            assert(path_key(platform, outs[y]) == cc);
        }
        assert forall|y: int, z: int| 0 <= y < z < outs.len() implies path_lt(platform, #[trigger] outs[y], #[trigger] outs[z]) by {
            assert(path_key(platform, outs[y]) == texts(anc_keys@[roots@[y] as int]@));
            assert(path_key(platform, outs[z]) == texts(anc_keys@[roots@[z] as int]@));
            assert(components_lt(platform, texts(anc_keys@[roots@[y] as int]@), texts(anc_keys@[roots@[z] as int]@)));
        }
        assert forall|y: int| 0 <= y < outs.len() implies #[trigger] outs[y] == sel || exists|k: int|
                0 <= k < d.len() && d[k].path@ == outs[y] by {
            assert(outs[y] == anc_paths@[roots@[y] as int]@);
        }
    }
    out
}

/// A copy of a list of components.
fn components_of_key(k: &Vec<Vec<char>>) -> (r: Vec<Vec<char>>)
    ensures
        texts(r@) == texts(k@),
{
    let mut out: Vec<Vec<char>> = Vec::new();
    let mut i: usize = 0;
    while i < k.len()
        invariant
            i <= k.len(),
            texts(out@) == texts(k@).take(i as int),
        decreases k.len() - i,
    {
        let ghost before = texts(out@);
        let c = crate::paths::sub_vec(&k[i], 0, k[i].len());
        assert(k@[i as int]@.subrange(0, k@[i as int]@.len() as int) == k@[i as int]@);
        out.push(c);
        assert(texts(out@) =~= before.push(k@[i as int]@));
        assert(texts(out@) =~= texts(k@).take(i + 1));
        i = i + 1;
    }
    assert(texts(k@).take(k@.len() as int) =~= texts(k@));
    out
}

/// A list holding only a copy of `k`.
fn vec_single(k: &Vec<Vec<char>>) -> (r: Vec<Vec<Vec<char>>>)
    ensures
        r@.len() == 1,
        texts(r@[0]@) == texts(k@),
{
    let mut out: Vec<Vec<Vec<char>>> = Vec::new();
    out.push(components_of_key(k));
    out
}


/// A dictionary file of a group: its resolved path and its text.
pub struct DictionaryFile {
    pub path: String,
    pub content: String,
}

/// A group of dictionaries: the path that was opened, the files of the group in the order in
/// which they were read, and the imported tables that were missing.
pub struct DictionaryGroup {
    pub root_path: String,
    pub files: Vec<DictionaryFile>,
    pub warnings: Vec<String>,
}

/// A dictionary being read: its directory, the tables it imports, and how many of them the
/// load has taken up.
pub struct ImportFrame {
    pub directory: String,
    pub tables: Vec<String>,
    pub next: usize,
}

/// What a group load waits for.
pub enum GroupPending {
    /// The resolved form of a path that is to be read.
    Canonical,
    /// The text of the file at this resolved path.
    Content { canonical: String },
    /// Whether this imported path is a file.
    IsFile { path: String },
    /// Nothing: the load is over.
    Finished,
}

/// What the caller must do next for a group load.
pub enum GroupAction {
    /// Resolve `path` (`Path::canonicalize`).
    Canonicalize { path: String },
    /// Read the text of the file at `path`.
    Read { path: String },
    /// Find out whether `path` is a file.
    CheckFile { path: String },
    /// The load is over, with this result.
    Finish { result: Result<DictionaryGroup, String> },
}

/// What the caller learned by doing the last action.
pub enum GroupEvent {
    /// The resolved path, or the error of resolving it.
    Canonicalized { result: Result<String, String> },
    /// The text of the file, or the error of reading it.
    Read { result: Result<String, String> },
    /// Whether the path is a file.
    Checked { is_file: bool },
}

/// Reading the group of dictionaries that starts at some roots: each root, then, depth
/// first, each table it imports, each resolved file read once.
pub struct GroupLoad {
    pub platform: Platform,
    pub root_path: String,
    pub roots: Vec<String>,
    pub next_root: usize,
    pub stack: Vec<ImportFrame>,
    pub visited: Vec<String>,
    pub files: Vec<DictionaryFile>,
    pub warnings: Vec<String>,
    pub pending: GroupPending,
}

/// The frames left when the finished ones are taken off the top.
pub open spec fn unfinished(stack: Seq<ImportFrame>) -> Seq<ImportFrame>
    decreases stack.len(),
{
    if stack.len() > 0 && stack.last().next >= stack.last().tables@.len() {
        unfinished(stack.drop_last())
    } else {
        stack
    }
}

/// Whether some path in `visited` is the same path as `p`.
pub open spec fn is_visited(platform: Platform, visited: Seq<String>, p: Seq<char>) -> bool {
    exists|i: int| 0 <= i < visited.len() && same_path(platform, #[trigger] visited[i]@, p)
}

impl GroupLoad {
    /// The platform whose paths the load uses.
    pub open spec fn platform_spec(&self) -> Platform {
        self.platform
    }

    /// The path of the dictionary that was opened, which the group reports as its root path.
    pub open spec fn opened_path(&self) -> Seq<char> {
        self.root_path@
    }

    /// The paths read so far, or being read.
    pub open spec fn visited_paths(&self) -> Seq<Seq<char>> {
        string_texts(self.visited@)
    }

    /// The files read so far.
    pub open spec fn read_files(&self) -> Seq<DictionaryFile> {
        self.files@
    }

    /// The missing imported paths found so far.
    pub open spec fn missing(&self) -> Seq<Seq<char>> {
        string_texts(self.warnings@)
    }

    /// The state is consistent: no path is visited twice, every file read is a visited path,
    /// and every frame has taken up at most its tables.
    pub open spec fn wf(&self) -> bool {
        &&& self.next_root <= self.roots@.len()
        &&& forall|i: int, j: int|
            0 <= i < j < self.visited@.len() ==> !same_path(
                self.platform,
                #[trigger] self.visited@[i]@,
                #[trigger] self.visited@[j]@,
            )
        &&& forall|i: int| 0 <= i < self.stack@.len() ==> (#[trigger] self.stack@[i]).next <= self.stack@[i].tables@.len()
        &&& self.files@.len() <= self.visited@.len()
        &&& forall|i: int| 0 <= i < self.files@.len() ==> (#[trigger] self.files@[i]).path@ == self.visited@[i]@
        &&& match self.pending {
            GroupPending::Content { canonical } => {
                &&& self.visited@.len() == self.files@.len() + 1
                &&& self.visited@.last()@ == canonical@
            },
            GroupPending::Finished => true,
            _ => self.visited@.len() == self.files@.len(),
        }
    }

    /// Whether the load waits for `event`: a resolved path, a file's text, or a file check.
    pub open spec fn expects(&self, event: GroupEvent) -> bool {
        match self.pending {
            GroupPending::Canonical => event is Canonicalized,
            GroupPending::Content { .. } => event is Read,
            GroupPending::IsFile { .. } => event is Checked,
            GroupPending::Finished => false,
        }
    }

    /// The imported path whose check is awaited.
    pub open spec fn checked_path(&self) -> Seq<char> {
        match self.pending {
            GroupPending::IsFile { path } => path@,
            _ => seq![],
        }
    }

    /// The resolved path whose text is awaited.
    pub open spec fn read_path(&self) -> Seq<char> {
        match self.pending {
            GroupPending::Content { canonical } => canonical@,
            _ => seq![],
        }
    }

    /// Whether the load, in `old` before and `new` after, went on to its next piece of work:
    /// the next table of the innermost dictionary that has one left is checked; when none is
    /// left, the next root is resolved; when no root is left, the load finishes with the
    /// files read and the missing imports.
    pub open spec fn resumed(old: GroupLoad, new: GroupLoad, action: GroupAction) -> bool {
        GroupLoad::resumed_from(old, old.stack@, old.files@, old.warnings@, new, action)
    }

    /// `resumed`, from the state `old` with its stack, files and missing imports replaced.
    pub open spec fn resumed_from(
        old: GroupLoad,
        stack: Seq<ImportFrame>,
        files: Seq<DictionaryFile>,
        warnings: Seq<String>,
        new: GroupLoad,
        action: GroupAction,
    ) -> bool {
        let s = unfinished(stack);
        &&& new.platform == old.platform
        &&& new.root_path == old.root_path
        &&& new.roots == old.roots
        &&& if s.len() > 0 {
            let top = s.last();
            let path = dictionary_file_path(old.platform, top.directory@, top.tables@[top.next as int]@);
            &&& new.next_root == old.next_root
            &&& new.stack@ == s.update(
                s.len() - 1,
                ImportFrame { directory: top.directory, tables: top.tables, next: (top.next + 1) as usize },
            )
            &&& new.pending matches GroupPending::IsFile { path: p } && p@ == path
            &&& action matches GroupAction::CheckFile { path: p } && p@ == path
            &&& new.files@ == files
            &&& new.warnings@ == warnings
            &&& new.visited == old.visited
        } else if old.next_root < old.roots@.len() {
            &&& new.next_root == old.next_root + 1
            &&& new.stack@.len() == 0
            &&& new.pending is Canonical
            &&& action matches GroupAction::Canonicalize { path: p } && p@ == old.roots@[old.next_root as int]@
            &&& new.files@ == files
            &&& new.warnings@ == warnings
            &&& new.visited == old.visited
        } else {
            &&& new.next_root == old.next_root
            &&& new.stack@.len() == 0
            &&& new.pending is Finished
            &&& new.files@.len() == 0
            &&& new.visited@.len() == 0
            &&& new.warnings@.len() == 0
            &&& action matches GroupAction::Finish { result: Ok(group) } && group.root_path@ == old.root_path@
                && group.files@ == files && group.warnings@ == warnings
        }
    }

    /// Whether the load went from `old` to `new`, answering `action`, on `event`:
    /// - a path that could not be resolved, or a file that could not be read, ends the load
    ///   with that error;
    /// - a resolved path that was visited before is skipped; a new one is marked visited and
    ///   read;
    /// - a file whose path has no parent ends the load with `missing-parent-directory`, and one
    ///   whose header is not valid YAML with the header error; otherwise the file is added to
    ///   the group and its imported tables are taken up, first to last, before the load goes
    ///   on;
    /// - an imported path that is a file is resolved next; one that is not is added to the
    ///   missing imports.
    pub open spec fn after_event(old: GroupLoad, event: GroupEvent, new: GroupLoad, action: GroupAction) -> bool {
        let platform = old.platform;
        &&& new.platform == old.platform
        &&& match event {
            GroupEvent::Canonicalized { result: Err(e) } => {
                &&& new.pending is Finished
                &&& action matches GroupAction::Finish { result: Err(m) } && m@ == e@
            },
            GroupEvent::Canonicalized { result: Ok(c) } => if is_visited(platform, old.visited@, c@) {
                GroupLoad::resumed(old, new, action)
            } else {
                &&& string_texts(new.visited@) == string_texts(old.visited@).push(c@)
                &&& new.files == old.files
                &&& new.warnings == old.warnings
                &&& new.stack == old.stack
                &&& new.roots == old.roots
                &&& new.next_root == old.next_root
                &&& new.root_path == old.root_path
                &&& new.pending matches GroupPending::Content { canonical } && canonical@ == c@
                &&& action matches GroupAction::Read { path } && path@ == c@
            },
            GroupEvent::Read { result: Err(e) } => {
                &&& new.pending is Finished
                &&& action matches GroupAction::Finish { result: Err(m) } && m@ == e@
            },
            GroupEvent::Read { result: Ok(content) } => {
                let c = old.read_path();
                match parent_path(platform, c) {
                    None => {
                        &&& new.pending is Finished
                        &&& action matches GroupAction::Finish { result: Err(m) } && m@ == "missing-parent-directory"@
                    },
                    Some(dir) => match imported_tables_of(content@) {
                        None => {
                            &&& new.pending is Finished
                            &&& action matches GroupAction::Finish { result: Err(m) } && is_invalid_header_error(m@)
                        },
                        Some(tables) => exists|file: DictionaryFile, frame: ImportFrame|
                            {
                                &&& file.path@ == c
                                &&& file.content == content
                                &&& frame.directory@ == dir
                                &&& string_texts(frame.tables@) == tables
                                &&& frame.next == 0
                                &&& GroupLoad::resumed_from(
                                    old,
                                    old.stack@.push(frame),
                                    old.files@.push(file),
                                    old.warnings@,
                                    new,
                                    action,
                                )
                            },
                    },
                }
            },
            GroupEvent::Checked { is_file } => if is_file {
                &&& new.visited == old.visited
                &&& new.files == old.files
                &&& new.warnings == old.warnings
                &&& new.stack == old.stack
                &&& new.roots == old.roots
                &&& new.next_root == old.next_root
                &&& new.root_path == old.root_path
                &&& new.pending is Canonical
                &&& action matches GroupAction::Canonicalize { path } && path@ == old.checked_path()
            } else {
                exists|w: String|
                    w@ == old.checked_path() && GroupLoad::resumed_from(
                        old,
                        old.stack@,
                        old.files@,
                        old.warnings@.push(w),
                        new,
                        action,
                    )
            },
        }
    }

    /// Whether `p` is the same path as one visited before.
    fn visited_before(&self, p: &str) -> (r: bool)
        ensures
            r == is_visited(self.platform, self.visited@, p@),
    {
        let mut i: usize = 0;
        while i < self.visited.len()
            invariant
                i <= self.visited@.len(),
                forall|k: int| 0 <= k < i ==> !same_path(self.platform, #[trigger] self.visited@[k]@, p@),
            decreases self.visited@.len() - i,
        {
            if paths_equal(self.platform, self.visited[i].as_str(), p) {
                return true;
            }
            i = i + 1;
        }
        false
    }

    /// Whether the load waits for `event`.
    pub fn expects_event(&self, event: &GroupEvent) -> (r: bool)
        ensures
            r == self.expects(*event),
    {
        match &self.pending {
            GroupPending::Canonical => matches!(event, GroupEvent::Canonicalized { .. }),
            GroupPending::Content { .. } => matches!(event, GroupEvent::Read { .. }),
            GroupPending::IsFile { .. } => matches!(event, GroupEvent::Checked { .. }),
            GroupPending::Finished => false,
        }
    }

    /// Takes in what the last action found out, and says what to do next.
    pub fn advance(&mut self, event: GroupEvent) -> (action: GroupAction)
        requires
            old(self).wf(),
            old(self).expects(event),
        ensures
            final(self).wf(),
            GroupLoad::after_event(*old(self), event, *final(self), action),
            final(self).platform_spec() == old(self).platform_spec(),
            final(self).opened_path() == old(self).opened_path(),
            // a path resolved to one visited before is skipped: nothing is read and nothing
            // is added
            event matches GroupEvent::Canonicalized { result: Ok(c) } && is_visited(
                old(self).platform,
                old(self).visited@,
                c@,
            ) ==> !(action is Read) && (action matches GroupAction::Finish { result: Ok(group) }
                ==> group.files@ == old(self).files@ && group.warnings@ == old(self).warnings@) && (
            !(action is Finish) ==> final(self).visited@ == old(self).visited@ && final(self).files@
                == old(self).files@ && final(self).warnings@ == old(self).warnings@),
            // a resolved path is visited once its event is taken in
            event matches GroupEvent::Canonicalized { result: Ok(c) } ==> action is Finish
                || is_visited(final(self).platform, final(self).visited@, c@),
            // while the load goes on, the visited paths, the files and the missing imports only
            // grow at their ends
            !(action is Finish) ==> old(self).visited@.is_prefix_of(final(self).visited@) && old(
                self,
            ).files@.is_prefix_of(final(self).files@) && old(self).warnings@.is_prefix_of(
                final(self).warnings@,
            ),
            // a group is reported under the path of the dictionary that was opened
            action matches GroupAction::Finish { result: Ok(group) } ==> group.root_path@
                == old(self).opened_path(),
            // a file is read only when no file read before is the same path
            action matches GroupAction::Read { path } ==> forall|i: int|
                0 <= i < old(self).visited_paths().len() ==> !same_path(
                    old(self).platform_spec(),
                    #[trigger] old(self).visited_paths()[i],
                    path@,
                ),
            // the files of a group are read once each
            action matches GroupAction::Finish { result: Ok(group) } ==> forall|i: int, j: int|
                0 <= i < j < group.files@.len() ==> !same_path(
                    old(self).platform_spec(),
                    #[trigger] group.files@[i].path@,
                    #[trigger] group.files@[j].path@,
                ),
    {
        match event {
            GroupEvent::Canonicalized { result } => match result {
                Err(e) => {
                    self.pending = GroupPending::Finished;
                    GroupAction::Finish { result: Err(e) }
                },
                Ok(c) => {
                    if self.visited_before(c.as_str()) {
                        let ghost prior = *self;
                        let action = self.resume();
                        proof {
                            if !(action is Finish) {
                                assert(self.visited == prior.visited);
                            }
                        }
                        action
                    } else {
                        let ghost before = self.visited@;
                        proof {
                            assert forall|i: int| 0 <= i < before.len() implies !same_path(self.platform, before[i]@, c@) by {
                                if same_path(self.platform, before[i]@, c@) {
                                    assert(is_visited(self.platform, before, c@));
                                }
                            }
                        }
                        self.visited.push(crate::text::copy_string(&c));
                        self.pending = GroupPending::Content { canonical: crate::text::copy_string(&c) };
                        assert(string_texts(self.visited@) =~= string_texts(before).push(c@));
                        assert(self.visited@[before.len() as int]@ == c@);
                        assert(same_path(self.platform, self.visited@[before.len() as int]@, c@));
                        proof {
                            assert forall|i: int, j: int|
                                0 <= i < j < self.visited@.len() implies !same_path(
                                    self.platform,
                                    #[trigger] self.visited@[i]@,
                                    #[trigger] self.visited@[j]@,
                                ) by {
                                if j == before.len() {
                                    assert(self.visited@[i] == before[i]);
                                    assert(!same_path(self.platform, before[i]@, c@));
                                } else {
                                    assert(self.visited@[i] == before[i]);
                                    assert(self.visited@[j] == before[j]);
                                }
                            }
                            assert forall|i: int| 0 <= i < self.files@.len() implies (#[trigger] self.files@[i]).path@ == self.visited@[i]@ by {
                                assert(self.visited@[i] == before[i]);
                            }
                        }
                        GroupAction::Read { path: c }
                    }
                },
            },
            GroupEvent::Read { result } => match result {
                Err(e) => {
                    self.pending = GroupPending::Finished;
                    GroupAction::Finish { result: Err(e) }
                },
                Ok(content) => {
                    let canonical = match &self.pending {
                        GroupPending::Content { canonical } => crate::text::copy_string(canonical),
                        _ => String::new(),
                    };
                    assert(canonical@ == old(self).read_path());
                    match parent(self.platform, canonical.as_str()) {
                        None => {
                            self.pending = GroupPending::Finished;
                            proof {
                                reveal_strlit("missing-parent-directory");
                            }
                            GroupAction::Finish { result: Err(String::from_str("missing-parent-directory")) }
                        },
                        Some(directory) => match imported_tables(content.as_str()) {
                            Err(m) => {
                                self.pending = GroupPending::Finished;
                                GroupAction::Finish { result: Err(m) }
                            },
                            Ok(tables) => {
                                let file = DictionaryFile { path: canonical, content };
                                let frame = ImportFrame { directory, tables, next: 0 };
                                let ghost f = file;
                                let ghost fr = frame;
                                self.files.push(file);
                                self.stack.push(frame);
                                self.pending = GroupPending::Canonical;
                                let ghost mid = *self;
                                let action = self.resume();
                                assert(GroupLoad::resumed_from(
                                    *old(self),
                                    old(self).stack@.push(fr),
                                    old(self).files@.push(f),
                                    old(self).warnings@,
                                    *self,
                                    action,
                                ));
                                action
                            },
                        },
                    }
                },
            },
            GroupEvent::Checked { is_file } => {
                let path = match &self.pending {
                    GroupPending::IsFile { path } => crate::text::copy_string(path),
                    _ => String::new(),
                };
                if is_file {
                    self.pending = GroupPending::Canonical;
                    GroupAction::Canonicalize { path }
                } else {
                    let ghost w = path;
                    self.warnings.push(path);
                    self.pending = GroupPending::Canonical;
                    let action = self.resume();
                    assert(GroupLoad::resumed_from(
                        *old(self),
                        old(self).stack@,
                        old(self).files@,
                        old(self).warnings@.push(w),
                        *self,
                        action,
                    ));
                    action
                }
            },
        }
    }

    /// Starts reading the group whose roots are `roots`, for the dictionary at `root_path`.
    pub fn start(platform: Platform, root_path: String, roots: Vec<String>) -> (r: (GroupLoad, GroupAction))
        ensures
            r.0.wf(),
            r.0.platform_spec() == platform,
            r.0.opened_path() == root_path@,
            r.0.roots@ == roots@,
            r.0.stack@.len() == 0,
            roots@.len() > 0 ==> r.0.pending is Canonical && r.0.next_root == 1,
            roots@.len() == 0 ==> r.0.pending is Finished && r.0.next_root == 0,
            r.0.visited_paths().len() == 0,
            r.0.read_files().len() == 0,
            r.0.missing().len() == 0,
            roots@.len() > 0 ==> (r.1 matches GroupAction::Canonicalize { path } && path@ == roots@[0]@),
            roots@.len() == 0 ==> (r.1 matches GroupAction::Finish { result: Ok(group) } && group.root_path@
                == root_path@ && group.files@.len() == 0 && group.warnings@.len() == 0),
            // a load begins consistent with every file system
            forall|
                resolve: spec_fn(Seq<char>) -> Option<Seq<char>>,
                text: spec_fn(Seq<char>) -> Option<Seq<char>>,
                is_file: spec_fn(Seq<char>) -> bool,
            |
                {
                    &&& !(r.1 is Finish) ==> load_consistent(r.0, r.1, resolve, text, is_file)
                    &&& r.1 matches GroupAction::Finish { result: Ok(group) } ==> group_complete(
                        platform,
                        roots@,
                        group,
                        resolve,
                        text,
                        is_file,
                    )
                },
    {
        let mut load = GroupLoad {
            platform,
            root_path,
            roots,
            next_root: 0,
            stack: Vec::new(),
            visited: Vec::new(),
            files: Vec::new(),
            warnings: Vec::new(),
            pending: GroupPending::Finished,
        };
        let ghost begun = load;
        let action = load.resume();
        proof {
            assert forall|
                resolve: spec_fn(Seq<char>) -> Option<Seq<char>>,
                text: spec_fn(Seq<char>) -> Option<Seq<char>>,
                is_file: spec_fn(Seq<char>) -> bool,
            |
                {
                    &&& !(action is Finish) ==> load_consistent(load, action, resolve, text, is_file)
                    &&& action matches GroupAction::Finish { result: Ok(group) } ==> group_complete(
                        platform,
                        begun.roots@,
                        group,
                        resolve,
                        text,
                        is_file,
                    )
                } by {
                lemma_resumed_consistent(begun, begun.stack@, begun.files@, begun.warnings@, load, action, resolve, text, is_file);
            }
        }
        assert(string_texts(load.visited@) =~= Seq::<Seq<char>>::empty());
        assert(string_texts(load.warnings@) =~= Seq::<Seq<char>>::empty());
        (load, action)
    }

    /// Goes on to the next piece of work.
    fn resume(&mut self) -> (action: GroupAction)
        requires
            old(self).wf() || old(self).pending is Finished,
            old(self).next_root <= old(self).roots@.len(),
            forall|i: int| 0 <= i < old(self).stack@.len() ==> (#[trigger] old(self).stack@[i]).next <= old(self).stack@[i].tables@.len(),
            old(self).visited@.len() == old(self).files@.len(),
            forall|i: int, j: int|
                0 <= i < j < old(self).visited@.len() ==> !same_path(
                    old(self).platform,
                    #[trigger] old(self).visited@[i]@,
                    #[trigger] old(self).visited@[j]@,
                ),
            forall|i: int| 0 <= i < old(self).files@.len() ==> (#[trigger] old(self).files@[i]).path@ == old(self).visited@[i]@,
        ensures
            final(self).wf(),
            GroupLoad::resumed(*old(self), *final(self), action),
    {
        let ghost start_stack = self.stack@;
        let ghost old_self = *old(self);
        while self.stack.len() > 0 && self.stack[self.stack.len() - 1].next >= self.stack[self.stack.len() - 1].tables.len()
            invariant
                start_stack == old(self).stack@,
                self.platform == old(self).platform,
                self.root_path == old(self).root_path,
                self.roots == old(self).roots,
                self.next_root == old(self).next_root,
                self.visited == old(self).visited,
                self.files == old(self).files,
                self.warnings == old(self).warnings,
                unfinished(self.stack@) == unfinished(start_stack),
                forall|i: int| 0 <= i < self.stack@.len() ==> (#[trigger] self.stack@[i]).next <= self.stack@[i].tables@.len(),
                self.stack@.len() <= start_stack.len(),
                forall|i: int| 0 <= i < self.stack@.len() ==> self.stack@[i] == start_stack[i],
            decreases self.stack.len(),
        {
            let ghost before = self.stack@;
            self.stack.pop();
            assert(self.stack@ =~= before.drop_last());
        }
        if self.stack.len() > 0 {
            let top = self.stack.len() - 1;
            let path = dictionary_path(self.platform, self.stack[top].directory.as_str(), self.stack[top].tables[self.stack[top].next].as_str());
            let mut frame = self.stack.pop().unwrap();
            frame.next = frame.next + 1;
            self.stack.push(frame);
            self.pending = GroupPending::IsFile { path: crate::text::copy_string(&path) };
            assert(self.stack@ =~= unfinished(start_stack).update(
                unfinished(start_stack).len() - 1,
                ImportFrame {
                    directory: unfinished(start_stack).last().directory,
                    tables: unfinished(start_stack).last().tables,
                    next: (unfinished(start_stack).last().next + 1) as usize,
                },
            ));
            GroupAction::CheckFile { path }
        } else if self.next_root < self.roots.len() {
            let path = crate::text::copy_string(&self.roots[self.next_root]);
            self.next_root = self.next_root + 1;
            self.pending = GroupPending::Canonical;
            GroupAction::Canonicalize { path }
        } else {
            self.pending = GroupPending::Finished;
            let mut files: Vec<DictionaryFile> = Vec::new();
            std::mem::swap(&mut files, &mut self.files);
            let mut warnings: Vec<String> = Vec::new();
            std::mem::swap(&mut warnings, &mut self.warnings);
            let mut visited: Vec<String> = Vec::new();
            std::mem::swap(&mut visited, &mut self.visited);
            GroupAction::Finish {
                result: Ok(DictionaryGroup { root_path: crate::text::copy_string(&self.root_path), files, warnings }),
            }
        }
    }
}


/// The path of the imported table `j` of the frame `f`.
pub open spec fn frame_import(platform: Platform, f: ImportFrame, j: int) -> Seq<char> {
    dictionary_file_path(platform, f.directory@, f.tables@[j]@)
}

/// The paths of the dictionaries that `file` imports: each of its tables in its directory.
pub open spec fn file_imports(platform: Platform, file: DictionaryFile) -> Seq<Seq<char>> {
    match (parent_path(platform, file.path@), imported_tables_of(file.content@)) {
        (Some(dir), Some(tables)) => tables.map_values(|t: Seq<char>| dictionary_file_path(platform, dir, t)),
        _ => seq![],
    }
}

/// Whether the frame `f` is the one of `file`: its directory and its tables.
pub open spec fn frame_is(platform: Platform, f: ImportFrame, file: DictionaryFile) -> bool {
    &&& parent_path(platform, file.path@) == Some(f.directory@)
    &&& imported_tables_of(file.content@) == Some(string_texts(f.tables@))
}

/// Whether the root `r` was taken in: it resolves to a visited path.
pub open spec fn root_taken(
    platform: Platform,
    visited: Seq<String>,
    resolve: spec_fn(Seq<char>) -> Option<Seq<char>>,
    r: Seq<char>,
) -> bool {
    match resolve(r) {
        Some(c) => is_visited(platform, visited, c),
        None => false,
    }
}

/// Whether the import `q` was taken in: when it is a file, it resolves to a visited path;
/// otherwise it is among the missing imports.
pub open spec fn taken_in(
    platform: Platform,
    visited: Seq<String>,
    warnings: Seq<String>,
    resolve: spec_fn(Seq<char>) -> Option<Seq<char>>,
    is_file: spec_fn(Seq<char>) -> bool,
    q: Seq<char>,
) -> bool {
    if is_file(q) {
        root_taken(platform, visited, resolve, q)
    } else {
        exists|w: int| 0 <= w < warnings.len() && #[trigger] warnings[w]@ == q
    }
}

/// Whether every import of `file` was taken in.
pub open spec fn file_complete(
    platform: Platform,
    file: DictionaryFile,
    visited: Seq<String>,
    warnings: Seq<String>,
    resolve: spec_fn(Seq<char>) -> Option<Seq<char>>,
    is_file: spec_fn(Seq<char>) -> bool,
) -> bool {
    forall|j: int|
        0 <= j < file_imports(platform, file).len() ==> taken_in(
            platform,
            visited,
            warnings,
            resolve,
            is_file,
            #[trigger] file_imports(platform, file)[j],
        )
}

/// Whether `w` is a missing import of `files`: an import of one of them that is not a file.
pub open spec fn is_missing_import(
    platform: Platform,
    files: Seq<DictionaryFile>,
    is_file: spec_fn(Seq<char>) -> bool,
    w: Seq<char>,
) -> bool {
    &&& !is_file(w)
    &&& exists|i: int, j: int|
        0 <= i < files.len() && 0 <= j < file_imports(platform, files[i]).len()
            && #[trigger] file_imports(platform, files[i])[j] == w
}

/// Whether every frame of `stack` is the frame of one of `files`.
pub open spec fn frames_owned(platform: Platform, stack: Seq<ImportFrame>, files: Seq<DictionaryFile>) -> bool {
    forall|k: int| 0 <= k < stack.len() ==> #[trigger] frame_owned(platform, stack[k], files)
}

/// Whether `f` is the frame of one of `files`.
pub open spec fn frame_owned(platform: Platform, f: ImportFrame, files: Seq<DictionaryFile>) -> bool {
    exists|i: int| 0 <= i < files.len() && #[trigger] frame_is(platform, f, files[i])
}

/// Whether every missing import listed in `warnings` is a missing import of `files`.
pub open spec fn warnings_missing(
    platform: Platform,
    warnings: Seq<String>,
    files: Seq<DictionaryFile>,
    is_file: spec_fn(Seq<char>) -> bool,
) -> bool {
    forall|w: int| 0 <= w < warnings.len() ==> is_missing_import(platform, files, is_file, #[trigger] warnings[w]@)
}

/// Whether `event` is what a file system answers to `action`: `resolve(p)` is the resolved
/// form of `p` (`None` when it cannot be resolved), `text(p)` the text of the file at `p`
/// (`None` when it cannot be read), and `is_file(p)` whether `p` is a file.
pub open spec fn answers(
    resolve: spec_fn(Seq<char>) -> Option<Seq<char>>,
    text: spec_fn(Seq<char>) -> Option<Seq<char>>,
    is_file: spec_fn(Seq<char>) -> bool,
    action: GroupAction,
    event: GroupEvent,
) -> bool {
    match action {
        GroupAction::Canonicalize { path } => match event {
            GroupEvent::Canonicalized { result: Ok(c) } => resolve(path@) == Some(c@),
            GroupEvent::Canonicalized { result: Err(_) } => resolve(path@) is None,
            _ => false,
        },
        GroupAction::Read { path } => match event {
            GroupEvent::Read { result: Ok(t) } => text(path@) == Some(t@),
            GroupEvent::Read { result: Err(_) } => text(path@) is None,
            _ => false,
        },
        GroupAction::CheckFile { path } => match event {
            GroupEvent::Checked { is_file: b } => b == is_file(path@),
            _ => false,
        },
        GroupAction::Finish { .. } => false,
    }
}

/// Whether a load, which last asked for `prev`, has so far been answered by the file system
/// (`resolve`, `text`, `is_file`): its files hold their texts; every file read has had all
/// its imports taken in, or is still being worked through on the stack; every table that a
/// frame has taken up was taken in, but the one under way; every root begun was taken in, but
/// the one under way; and what the load waits for is the answer to `prev`.
pub open spec fn load_consistent(
    s: GroupLoad,
    prev: GroupAction,
    resolve: spec_fn(Seq<char>) -> Option<Seq<char>>,
    text: spec_fn(Seq<char>) -> Option<Seq<char>>,
    is_file: spec_fn(Seq<char>) -> bool,
) -> bool {
    let p = s.platform;
    let top = s.stack@.len() - 1;
    &&& forall|i: int| 0 <= i < s.files@.len() ==> text(#[trigger] s.files@[i].path@) == Some(s.files@[i].content@)
    &&& forall|i: int|
        0 <= i < s.files@.len() ==> file_complete(p, #[trigger] s.files@[i], s.visited@, s.warnings@, resolve, is_file)
            || exists|k: int| 0 <= k < s.stack@.len() && #[trigger] frame_is(p, s.stack@[k], s.files@[i])
    &&& forall|k: int, j: int|
        0 <= k < s.stack@.len() && 0 <= j < s.stack@[k].next ==> taken_in(
            p,
            s.visited@,
            s.warnings@,
            resolve,
            is_file,
            #[trigger] frame_import(p, s.stack@[k], j),
        ) || (k == top && j == s.stack@[k].next - 1 && (s.pending is IsFile || s.pending is Canonical))
    &&& forall|r: int|
        0 <= r < s.next_root ==> root_taken(p, s.visited@, resolve, #[trigger] s.roots@[r]@) || (r
            == s.next_root - 1 && s.stack@.len() == 0 && s.pending is Canonical)
    &&& frames_owned(p, s.stack@, s.files@)
    &&& warnings_missing(p, s.warnings@, s.files@, is_file)
    &&& match s.pending {
        GroupPending::Canonical => prev matches GroupAction::Canonicalize { path } && if s.stack@.len() > 0 {
            &&& 1 <= s.stack@[top].next
            &&& path@ == frame_import(p, s.stack@[top], s.stack@[top].next - 1)
            &&& is_file(path@)
        } else {
            1 <= s.next_root && path@ == s.roots@[s.next_root - 1]@
        },
        GroupPending::IsFile { path: q } => prev matches GroupAction::CheckFile { path } && path@ == q@
            && s.stack@.len() > 0 && 1 <= s.stack@[top].next && q@ == frame_import(
            p,
            s.stack@[top],
            s.stack@[top].next - 1,
        ),
        GroupPending::Content { canonical } => prev matches GroupAction::Read { path } && path@ == canonical@,
        GroupPending::Finished => true,
    }
}

/// Whether some file of `files` is at the same path as `c`.
pub open spec fn holds_path(platform: Platform, files: Seq<DictionaryFile>, c: Seq<char>) -> bool {
    exists|k: int| 0 <= k < files.len() && same_path(platform, #[trigger] files[k].path@, c)
}

/// Whether the group read from the roots `roots` is complete for the file system
/// (`resolve`, `text`, `is_file`): each of its files holds the file's text; it holds the file
/// of each root; and of each import of each of its files, it holds the file when the import
/// is a file, and lists the import as missing otherwise; and each import that it lists as
/// missing is an import of one of its files that is not a file.
pub open spec fn group_complete(
    platform: Platform,
    roots: Seq<String>,
    group: DictionaryGroup,
    resolve: spec_fn(Seq<char>) -> Option<Seq<char>>,
    text: spec_fn(Seq<char>) -> Option<Seq<char>>,
    is_file: spec_fn(Seq<char>) -> bool,
) -> bool {
    let files = group.files@;
    &&& forall|i: int| 0 <= i < files.len() ==> text(#[trigger] files[i].path@) == Some(files[i].content@)
    &&& forall|r: int|
        0 <= r < roots.len() ==> match resolve(#[trigger] roots[r]@) {
            Some(c) => holds_path(platform, files, c),
            None => false,
        }
    &&& forall|i: int, j: int|
        0 <= i < files.len() && 0 <= j < file_imports(platform, files[i]).len() ==> {
            let q = #[trigger] file_imports(platform, files[i])[j];
            if is_file(q) {
                match resolve(q) {
                    Some(c) => holds_path(platform, files, c),
                    None => false,
                }
            } else {
                exists|w: int| 0 <= w < group.warnings@.len() && #[trigger] group.warnings@[w]@ == q
            }
        }
    &&& warnings_missing(platform, group.warnings@, files, is_file)
}

proof fn lemma_unfinished(st: Seq<ImportFrame>)
    ensures
        unfinished(st).len() <= st.len(),
        unfinished(st) == st.take(unfinished(st).len() as int),
        forall|k: int| unfinished(st).len() <= k < st.len() ==> #[trigger] st[k].next >= st[k].tables@.len(),
        unfinished(st).len() > 0 ==> unfinished(st).last().next < unfinished(st).last().tables@.len(),
    decreases st.len(),
{
    if st.len() > 0 && st.last().next >= st.last().tables@.len() {
        lemma_unfinished(st.drop_last());
        let u = unfinished(st.drop_last());
        assert(st.drop_last().take(u.len() as int) =~= st.take(u.len() as int));
        assert forall|k: int| u.len() <= k < st.len() implies #[trigger] st[k].next >= st[k].tables@.len() by {
            if k < st.len() - 1 {
                assert(st.drop_last()[k] == st[k]);
            }
        }
    } else {
        assert(st.take(st.len() as int) =~= st);
    }
}

proof fn lemma_taken_in_grows(
    platform: Platform,
    v1: Seq<String>,
    w1: Seq<String>,
    v2: Seq<String>,
    w2: Seq<String>,
    resolve: spec_fn(Seq<char>) -> Option<Seq<char>>,
    is_file: spec_fn(Seq<char>) -> bool,
    q: Seq<char>,
)
    requires
        v1.len() <= v2.len(),
        forall|i: int| 0 <= i < v1.len() ==> v2[i] == v1[i],
        w1.len() <= w2.len(),
        forall|i: int| 0 <= i < w1.len() ==> w2[i] == w1[i],
        taken_in(platform, v1, w1, resolve, is_file, q),
    ensures
        taken_in(platform, v2, w2, resolve, is_file, q),
{
    if is_file(q) {
        let c = resolve(q).unwrap();
        let i = choose|i: int| 0 <= i < v1.len() && same_path(platform, #[trigger] v1[i]@, c);
        assert(v2[i] == v1[i]);
    } else {
        let w = choose|w: int| 0 <= w < w1.len() && #[trigger] w1[w]@ == q;
        assert(w2[w] == w1[w]);
    }
}

proof fn lemma_frame_done_file_complete(
    platform: Platform,
    f: ImportFrame,
    file: DictionaryFile,
    visited: Seq<String>,
    warnings: Seq<String>,
    resolve: spec_fn(Seq<char>) -> Option<Seq<char>>,
    is_file: spec_fn(Seq<char>) -> bool,
)
    requires
        frame_is(platform, f, file),
        forall|j: int|
            0 <= j < f.tables@.len() ==> taken_in(platform, visited, warnings, resolve, is_file, #[trigger] frame_import(platform, f, j)),
    ensures
        file_complete(platform, file, visited, warnings, resolve, is_file),
{
    assert forall|j: int| 0 <= j < file_imports(platform, file).len() implies taken_in(
        platform,
        visited,
        warnings,
        resolve,
        is_file,
        #[trigger] file_imports(platform, file)[j],
    ) by {
        assert(string_texts(f.tables@)[j] == f.tables@[j]@);
        assert(file_imports(platform, file)[j] == frame_import(platform, f, j));
    }
}

proof fn lemma_frames_owned_kept(platform: Platform, st: Seq<ImportFrame>, ns: Seq<ImportFrame>, fl: Seq<DictionaryFile>)
    requires
        frames_owned(platform, st, fl),
        ns.len() <= st.len(),
        forall|k: int| 0 <= k < ns.len() ==> (#[trigger] ns[k]).directory == st[k].directory && ns[k].tables == st[k].tables,
    ensures
        frames_owned(platform, ns, fl),
{
    assert forall|k: int| 0 <= k < ns.len() implies #[trigger] frame_owned(platform, ns[k], fl) by {
        assert(frame_owned(platform, st[k], fl));
        let i = choose|i: int| 0 <= i < fl.len() && #[trigger] frame_is(platform, st[k], fl[i]);
        assert(frame_is(platform, ns[k], fl[i]));
    }
}

proof fn lemma_frames_owned_push(
    platform: Platform,
    st: Seq<ImportFrame>,
    fl: Seq<DictionaryFile>,
    frame: ImportFrame,
    file: DictionaryFile,
)
    requires
        frames_owned(platform, st, fl),
        frame_is(platform, frame, file),
    ensures
        frames_owned(platform, st.push(frame), fl.push(file)),
{
    let st2 = st.push(frame);
    let fl2 = fl.push(file);
    assert forall|k: int| 0 <= k < st2.len() implies #[trigger] frame_owned(platform, st2[k], fl2) by {
        if k < st.len() {
            assert(st2[k] == st[k]);
            assert(frame_owned(platform, st[k], fl));
            let i = choose|i: int| 0 <= i < fl.len() && #[trigger] frame_is(platform, st[k], fl[i]);
            assert(fl2[i] == fl[i]);
            assert(frame_is(platform, st2[k], fl2[i]));
        } else {
            assert(frame_is(platform, st2[k], fl2[fl.len() as int]));
        }
    }
}

proof fn lemma_resumed_consistent(
    o: GroupLoad,
    st: Seq<ImportFrame>,
    fl: Seq<DictionaryFile>,
    wr: Seq<String>,
    n: GroupLoad,
    a: GroupAction,
    resolve: spec_fn(Seq<char>) -> Option<Seq<char>>,
    text: spec_fn(Seq<char>) -> Option<Seq<char>>,
    is_file: spec_fn(Seq<char>) -> bool,
)
    requires
        GroupLoad::resumed_from(o, st, fl, wr, n, a),
        o.next_root <= o.roots@.len(),
        forall|k: int| 0 <= k < st.len() ==> (#[trigger] st[k]).next <= st[k].tables@.len(),
        fl.len() == o.visited@.len(),
        forall|i: int| 0 <= i < fl.len() ==> (#[trigger] fl[i]).path@ == o.visited@[i]@,
        forall|i: int| 0 <= i < fl.len() ==> text(#[trigger] fl[i].path@) == Some(fl[i].content@),
        forall|i: int|
            0 <= i < fl.len() ==> file_complete(o.platform, #[trigger] fl[i], o.visited@, wr, resolve, is_file)
                || exists|k: int| 0 <= k < st.len() && #[trigger] frame_is(o.platform, st[k], fl[i]),
        forall|k: int, j: int|
            0 <= k < st.len() && 0 <= j < st[k].next ==> taken_in(
                o.platform,
                o.visited@,
                wr,
                resolve,
                is_file,
                #[trigger] frame_import(o.platform, st[k], j),
            ),
        forall|r: int| 0 <= r < o.next_root ==> root_taken(o.platform, o.visited@, resolve, #[trigger] o.roots@[r]@),
        frames_owned(o.platform, st, fl),
        warnings_missing(o.platform, wr, fl, is_file),
    ensures
        !(a is Finish) ==> load_consistent(n, a, resolve, text, is_file),
        a matches GroupAction::Finish { result: Ok(g) } ==> group_complete(o.platform, o.roots@, g, resolve, text, is_file),
{
    let p = o.platform;
    lemma_unfinished(st);
    let s = unfinished(st);
    // the files whose frames were taken off are complete
    assert forall|i: int| 0 <= i < fl.len() implies file_complete(p, #[trigger] fl[i], o.visited@, wr, resolve, is_file)
        || exists|k: int| 0 <= k < s.len() && #[trigger] frame_is(p, s[k], fl[i]) by {
        if !file_complete(p, fl[i], o.visited@, wr, resolve, is_file) {
            let k = choose|k: int| 0 <= k < st.len() && #[trigger] frame_is(p, st[k], fl[i]);
            if k >= s.len() {
                assert(st[k].next >= st[k].tables@.len());
                assert forall|j: int| 0 <= j < st[k].tables@.len() implies taken_in(p, o.visited@, wr, resolve, is_file, #[trigger] frame_import(p, st[k], j)) by {
                    assert(j < st[k].next);
                }
                lemma_frame_done_file_complete(p, st[k], fl[i], o.visited@, wr, resolve, is_file);
            } else {
                assert(s[k] == st[k]);
            }
        }
    }
    if s.len() > 0 {
        let top = s.last();
        let t = s.len() - 1;
        let ns = n.stack@;
        assert(ns.len() == s.len());
        assert forall|k: int| 0 <= k < ns.len() && k != t implies #[trigger] ns[k] == st[k] by {
            assert(s[k] == st[k]);
        }
        assert(top.next < top.tables@.len());
        assert(top.tables@.len() == top.tables.len());
        assert(ns[t].directory == top.directory && ns[t].tables == top.tables);
        assert(ns[t].next == top.next + 1);
        assert(s[t] == st[t]);
        assert forall|k: int| 0 <= k < ns.len() implies (#[trigger] ns[k]).directory == st[k].directory && ns[k].tables == st[k].tables by {
            assert(s[k] == st[k]);
        }
        lemma_frames_owned_kept(p, st, ns, fl);
        assert forall|i: int| 0 <= i < n.files@.len() implies file_complete(p, #[trigger] n.files@[i], n.visited@, n.warnings@, resolve, is_file)
            || exists|k: int| 0 <= k < n.stack@.len() && #[trigger] frame_is(p, n.stack@[k], n.files@[i]) by {
            if !file_complete(p, fl[i], o.visited@, wr, resolve, is_file) {
                let k = choose|k: int| 0 <= k < s.len() && #[trigger] frame_is(p, s[k], fl[i]);
                assert(frame_is(p, ns[k], fl[i]));
            }
        }
        assert forall|k: int, j: int|
            0 <= k < ns.len() && 0 <= j < ns[k].next implies taken_in(p, n.visited@, n.warnings@, resolve, is_file, #[trigger] frame_import(p, ns[k], j))
            || (k == ns.len() - 1 && j == ns[k].next - 1 && (n.pending is IsFile || n.pending is Canonical)) by {
            if k != t {
                assert(ns[k] == st[k]);
            } else if j < top.next {
                assert(frame_import(p, ns[k], j) == frame_import(p, st[t], j));
            }
        }
    } else if o.next_root < o.roots@.len() {
        assert forall|r: int| 0 <= r < n.next_root implies root_taken(p, n.visited@, resolve, #[trigger] n.roots@[r]@) || (r
            == n.next_root - 1 && n.stack@.len() == 0 && n.pending is Canonical) by {
        }
    } else {
        if let GroupAction::Finish { result: Ok(g) } = a {
            let files = g.files@;
            assert(files == fl);
            assert forall|c: Seq<char>| is_visited(p, o.visited@, c) implies holds_path(p, files, c) by {
                let i = choose|i: int| 0 <= i < o.visited@.len() && same_path(p, #[trigger] o.visited@[i]@, c);
                assert(files[i].path@ == o.visited@[i]@);
            }
            assert forall|r: int| 0 <= r < o.roots@.len() implies match resolve(#[trigger] o.roots@[r]@) {
                Some(c) => holds_path(p, files, c),
                None => false,
            } by {
                assert(root_taken(p, o.visited@, resolve, o.roots@[r]@));
            }
            assert forall|i: int, j: int|
                0 <= i < files.len() && 0 <= j < file_imports(p, files[i]).len() implies {
                    let q = #[trigger] file_imports(p, files[i])[j];
                    if is_file(q) {
                        match resolve(q) {
                            Some(c) => holds_path(p, files, c),
                            None => false,
                        }
                    } else {
                        exists|w: int| 0 <= w < g.warnings@.len() && #[trigger] g.warnings@[w]@ == q
                    }
                } by {
                assert(file_complete(p, fl[i], o.visited@, wr, resolve, is_file));
                assert(taken_in(p, o.visited@, wr, resolve, is_file, file_imports(p, fl[i])[j]));
            }
        }
    }
}

/// The group load, step by step, against one file system. When a load is consistent with the
/// file system (`load_consistent`) and takes in the file system's answer to the action it
/// asked for, it stays consistent with it; and when it then finishes with a group, the group
/// is complete (`group_complete`): it holds the file of each root, each file with its text,
/// and, of each file, every import that is a file, the others listed as missing. Together
/// with `GroupLoad::start`, which begins consistent with any file system, this is the law of a
/// whole load: read against an unchanging file system, a load that succeeds has read the
/// complete group.
pub proof fn lemma_load_step(
    old: GroupLoad,
    prev: GroupAction,
    event: GroupEvent,
    new: GroupLoad,
    action: GroupAction,
    resolve: spec_fn(Seq<char>) -> Option<Seq<char>>,
    text: spec_fn(Seq<char>) -> Option<Seq<char>>,
    is_file: spec_fn(Seq<char>) -> bool,
)
    requires
        old.wf(),
        load_consistent(old, prev, resolve, text, is_file),
        answers(resolve, text, is_file, prev, event),
        old.expects(event),
        GroupLoad::after_event(old, event, new, action),
    ensures
        !(action is Finish) ==> load_consistent(new, action, resolve, text, is_file),
        action matches GroupAction::Finish { result: Ok(group) } ==> group_complete(
            old.platform,
            old.roots@,
            group,
            resolve,
            text,
            is_file,
        ),
{
    let p = old.platform;
    let top = old.stack@.len() - 1;
    match event {
        GroupEvent::Canonicalized { result: Ok(c) } => {
            // the root or import under way is taken in now
            if is_visited(p, old.visited@, c@) {
                assert forall|k: int, j: int|
                    0 <= k < old.stack@.len() && 0 <= j < old.stack@[k].next implies taken_in(
                        p,
                        old.visited@,
                        old.warnings@,
                        resolve,
                        is_file,
                        #[trigger] frame_import(p, old.stack@[k], j),
                    ) by {
                }
                assert forall|r: int| 0 <= r < old.next_root implies root_taken(p, old.visited@, resolve, #[trigger] old.roots@[r]@) by {
                }
                lemma_resumed_consistent(old, old.stack@, old.files@, old.warnings@, new, action, resolve, text, is_file);
            } else {
                let nv = new.visited@;
                assert(nv.len() == old.visited@.len() + 1) by {
                    assert(string_texts(nv).len() == nv.len());
                }
                assert forall|i: int| 0 <= i < old.visited@.len() implies nv[i]@ == old.visited@[i]@ by {
                    assert(string_texts(nv)[i] == nv[i]@);
                }
                assert(string_texts(nv)[old.visited@.len() as int] == nv[old.visited@.len() as int]@);
                assert(same_path(p, nv[old.visited@.len() as int]@, c@));
                assert(is_visited(p, nv, c@));
                assert forall|q: Seq<char>| #[trigger] taken_in(p, old.visited@, old.warnings@, resolve, is_file, q) implies taken_in(
                    p,
                    nv,
                    new.warnings@,
                    resolve,
                    is_file,
                    q,
                ) by {
                    if is_file(q) {
                        let cc = resolve(q).unwrap();
                        let i = choose|i: int| 0 <= i < old.visited@.len() && same_path(p, #[trigger] old.visited@[i]@, cc);
                        assert(nv[i]@ == old.visited@[i]@);
                    }
                }
                assert forall|r: Seq<char>| #[trigger] root_taken(p, old.visited@, resolve, r) implies root_taken(p, nv, resolve, r) by {
                    let cc = resolve(r).unwrap();
                    let i = choose|i: int| 0 <= i < old.visited@.len() && same_path(p, #[trigger] old.visited@[i]@, cc);
                    assert(nv[i]@ == old.visited@[i]@);
                }
                assert forall|i: int| 0 <= i < new.files@.len() implies file_complete(p, #[trigger] new.files@[i], new.visited@, new.warnings@, resolve, is_file)
                    || exists|k: int| 0 <= k < new.stack@.len() && #[trigger] frame_is(p, new.stack@[k], new.files@[i]) by {
                    if file_complete(p, old.files@[i], old.visited@, old.warnings@, resolve, is_file) {
                        assert forall|j: int| 0 <= j < file_imports(p, old.files@[i]).len() implies taken_in(p, new.visited@, new.warnings@, resolve, is_file,
                            #[trigger] file_imports(p, old.files@[i])[j]) by {
                            assert(taken_in(p, old.visited@, old.warnings@, resolve, is_file, file_imports(p, old.files@[i])[j]));
                        }
                    }
                }
                assert forall|k: int, j: int|
                    0 <= k < new.stack@.len() && 0 <= j < new.stack@[k].next implies taken_in(
                        p,
                        new.visited@,
                        new.warnings@,
                        resolve,
                        is_file,
                        #[trigger] frame_import(p, new.stack@[k], j),
                    ) || (k == new.stack@.len() - 1 && j == new.stack@[k].next - 1 && (new.pending is IsFile || new.pending is Canonical)) by {
                    if taken_in(p, old.visited@, old.warnings@, resolve, is_file, frame_import(p, old.stack@[k], j)) {
                    }
                }
                assert forall|r: int| 0 <= r < new.next_root implies root_taken(p, new.visited@, resolve, #[trigger] new.roots@[r]@) || (r
                    == new.next_root - 1 && new.stack@.len() == 0 && new.pending is Canonical) by {
                    if root_taken(p, old.visited@, resolve, old.roots@[r]@) {
                    }
                }
            }
        },
        GroupEvent::Read { result: Ok(content) } => {
            let c = old.read_path();
            match parent_path(p, c) {
                None => {},
                Some(dir) => match imported_tables_of(content@) {
                    None => {},
                    Some(tables) => {
                        let (file, frame) = choose|file: DictionaryFile, frame: ImportFrame|
                            {
                                &&& file.path@ == c
                                &&& file.content == content
                                &&& frame.directory@ == dir
                                &&& string_texts(frame.tables@) == tables
                                &&& frame.next == 0
                                &&& GroupLoad::resumed_from(
                                    old,
                                    old.stack@.push(frame),
                                    old.files@.push(file),
                                    old.warnings@,
                                    new,
                                    action,
                                )
                            };
                        let st = old.stack@.push(frame);
                        let fl = old.files@.push(file);
                        assert(frame_is(p, frame, file));
                        assert(frame_is(p, st[old.stack@.len() as int], fl[old.files@.len() as int]));
                        assert forall|i: int| 0 <= i < fl.len() implies file_complete(p, #[trigger] fl[i], old.visited@, old.warnings@, resolve, is_file)
                            || exists|k: int| 0 <= k < st.len() && #[trigger] frame_is(p, st[k], fl[i]) by {
                            if i < old.files@.len() {
                                assert(fl[i] == old.files@[i]);
                                if !file_complete(p, old.files@[i], old.visited@, old.warnings@, resolve, is_file) {
                                    let k = choose|k: int| 0 <= k < old.stack@.len() && #[trigger] frame_is(p, old.stack@[k], old.files@[i]);
                                    assert(st[k] == old.stack@[k]);
                                }
                            }
                        }
                        assert forall|k: int, j: int|
                            0 <= k < st.len() && 0 <= j < st[k].next implies taken_in(
                                p,
                                old.visited@,
                                old.warnings@,
                                resolve,
                                is_file,
                                #[trigger] frame_import(p, st[k], j),
                            ) by {
                            assert(st[k] == old.stack@[k]);
                        }
                        assert forall|r: int| 0 <= r < old.next_root implies root_taken(p, old.visited@, resolve, #[trigger] old.roots@[r]@) by {
                        }
                        assert forall|i: int| 0 <= i < fl.len() implies (#[trigger] fl[i]).path@ == old.visited@[i]@ by {
                            if i < old.files@.len() {
                                assert(fl[i] == old.files@[i]);
                            }
                        }
                        assert forall|i: int| 0 <= i < fl.len() implies text(#[trigger] fl[i].path@) == Some(fl[i].content@) by {
                            if i < old.files@.len() {
                                assert(fl[i] == old.files@[i]);
                            }
                        }
                        assert forall|k: int| 0 <= k < st.len() implies (#[trigger] st[k]).next <= st[k].tables@.len() by {
                            if k < old.stack@.len() {
                                assert(st[k] == old.stack@[k]);
                            }
                        }
                        lemma_frames_owned_push(p, old.stack@, old.files@, frame, file);
                        assert forall|w: int| 0 <= w < old.warnings@.len() implies is_missing_import(p, fl, is_file, #[trigger] old.warnings@[w]@) by {
                            assert(is_missing_import(p, old.files@, is_file, old.warnings@[w]@));
                            let (i, j) = choose|i: int, j: int|
                                0 <= i < old.files@.len() && 0 <= j < file_imports(p, old.files@[i]).len()
                                    && #[trigger] file_imports(p, old.files@[i])[j] == old.warnings@[w]@;
                            assert(fl[i] == old.files@[i]);
                            assert(file_imports(p, fl[i])[j] == old.warnings@[w]@);
                        }
                        lemma_resumed_consistent(old, st, fl, old.warnings@, new, action, resolve, text, is_file);
                    },
                },
            }
        },
        GroupEvent::Checked { is_file: b } => {
            if b {
                assert forall|k: int, j: int|
                    0 <= k < new.stack@.len() && 0 <= j < new.stack@[k].next implies taken_in(
                        p,
                        new.visited@,
                        new.warnings@,
                        resolve,
                        is_file,
                        #[trigger] frame_import(p, new.stack@[k], j),
                    ) || (k == new.stack@.len() - 1 && j == new.stack@[k].next - 1 && (new.pending is IsFile || new.pending is Canonical)) by {
                }
            } else {
                let w = choose|w: String|
                    w@ == old.checked_path() && GroupLoad::resumed_from(
                        old,
                        old.stack@,
                        old.files@,
                        old.warnings@.push(w),
                        new,
                        action,
                    );
                let wr = old.warnings@.push(w);
                assert(wr[old.warnings@.len() as int]@ == old.checked_path());
                assert forall|q: Seq<char>| #[trigger] taken_in(p, old.visited@, old.warnings@, resolve, is_file, q) implies taken_in(
                    p,
                    old.visited@,
                    wr,
                    resolve,
                    is_file,
                    q,
                ) by {
                    if !is_file(q) {
                        let x = choose|x: int| 0 <= x < old.warnings@.len() && #[trigger] old.warnings@[x]@ == q;
                        assert(wr[x] == old.warnings@[x]);
                    }
                }
                assert(taken_in(p, old.visited@, wr, resolve, is_file, frame_import(p, old.stack@[top], old.stack@[top].next - 1)));
                assert forall|i: int| 0 <= i < old.files@.len() implies file_complete(p, #[trigger] old.files@[i], old.visited@, wr, resolve, is_file)
                    || exists|k: int| 0 <= k < old.stack@.len() && #[trigger] frame_is(p, old.stack@[k], old.files@[i]) by {
                    if file_complete(p, old.files@[i], old.visited@, old.warnings@, resolve, is_file) {
                        assert forall|j: int| 0 <= j < file_imports(p, old.files@[i]).len() implies taken_in(p, old.visited@, wr, resolve, is_file,
                            #[trigger] file_imports(p, old.files@[i])[j]) by {
                            assert(taken_in(p, old.visited@, old.warnings@, resolve, is_file, file_imports(p, old.files@[i])[j]));
                        }
                    }
                }
                assert forall|k: int, j: int|
                    0 <= k < old.stack@.len() && 0 <= j < old.stack@[k].next implies taken_in(
                        p,
                        old.visited@,
                        wr,
                        resolve,
                        is_file,
                        #[trigger] frame_import(p, old.stack@[k], j),
                    ) by {
                    if taken_in(p, old.visited@, old.warnings@, resolve, is_file, frame_import(p, old.stack@[k], j)) {
                    }
                }
                assert forall|r: int| 0 <= r < old.next_root implies root_taken(p, old.visited@, resolve, #[trigger] old.roots@[r]@) by {
                }
                assert(frame_owned(p, old.stack@[top], old.files@));
                let oi = choose|i: int| 0 <= i < old.files@.len() && #[trigger] frame_is(p, old.stack@[top], old.files@[i]);
                let tf = old.stack@[top];
                assert(string_texts(tf.tables@)[tf.next - 1] == tf.tables@[tf.next - 1]@);
                assert(file_imports(p, old.files@[oi])[tf.next - 1] == frame_import(p, tf, tf.next - 1));
                assert(is_missing_import(p, old.files@, is_file, wr[old.warnings@.len() as int]@));
                assert forall|x: int| 0 <= x < wr.len() implies is_missing_import(p, old.files@, is_file, #[trigger] wr[x]@) by {
                    if x < old.warnings@.len() {
                        assert(wr[x] == old.warnings@[x]);
                    }
                }
                lemma_resumed_consistent(old, old.stack@, old.files@, wr, new, action, resolve, text, is_file);
            }
        },
        _ => {},
    }
}


/// Whether `f` has an import that is a file and resolves to the same path as `target`.
pub open spec fn import_seen(
    platform: Platform,
    f: DictionaryFile,
    target: Seq<char>,
    resolve: spec_fn(Seq<char>) -> Option<Seq<char>>,
    is_file: spec_fn(Seq<char>) -> bool,
) -> bool {
    exists|j: int|
        0 <= j < file_imports(platform, f).len() && is_file(#[trigger] file_imports(platform, f)[j])
            && match resolve(file_imports(platform, f)[j]) {
            Some(c) => same_path(platform, c, target),
            None => false,
        }
}

/// Whether the dictionaries found beside the selected one agree with the file system that
/// the load reads: each one's path is resolved already, and a file read at the same path as
/// one of them, with the text the file system gives, has for each import that the scan
/// found an import that is a file and resolves to the same path.
pub open spec fn scan_agrees(
    platform: Platform,
    defs: Seq<GroupDefinition>,
    resolve: spec_fn(Seq<char>) -> Option<Seq<char>>,
    text: spec_fn(Seq<char>) -> Option<Seq<char>>,
    is_file: spec_fn(Seq<char>) -> bool,
) -> bool {
    &&& forall|k: int| 0 <= k < defs.len() ==> resolve(#[trigger] defs[k].path@) == Some(defs[k].path@)
    &&& forall|k: int, m: int, f: DictionaryFile|
        0 <= k < defs.len() && 0 <= m < defs[k].imports@.len() && same_path(platform, f.path@, defs[k].path@)
            && text(f.path@) == Some(f.content@) ==> #[trigger] import_seen(
            platform,
            f,
            defs[k].imports@[m]@,
            resolve,
            is_file,
        )
}

/// Whether some file of `files` has the key `x`.
pub open spec fn holds_key(platform: Platform, files: Seq<DictionaryFile>, x: Seq<Seq<char>>) -> bool {
    exists|k: int| 0 <= k < files.len() && #[trigger] path_key(platform, files[k].path@) == x
}

proof fn lemma_reach_held(
    platform: Platform,
    selected: Seq<char>,
    defs: Seq<GroupDefinition>,
    roots: Seq<String>,
    group: DictionaryGroup,
    resolve: spec_fn(Seq<char>) -> Option<Seq<char>>,
    text: spec_fn(Seq<char>) -> Option<Seq<char>>,
    is_file: spec_fn(Seq<char>) -> bool,
    n: nat,
    x: Seq<Seq<char>>,
)
    requires
        reach(platform, selected, defs, n).contains(x),
        holds_key(platform, group.files@, x),
        group_complete(platform, roots, group, resolve, text, is_file),
        scan_agrees(platform, defs, resolve, text, is_file),
    ensures
        holds_key(platform, group.files@, path_key(platform, selected)),
    decreases n,
{
    let files = group.files@;
    if n == 0 {
    } else {
        let prev = reach(platform, selected, defs, (n - 1) as nat);
        if prev.contains(x) {
            lemma_reach_held(platform, selected, defs, roots, group, resolve, text, is_file, (n - 1) as nat, x);
        } else {
            let i = choose|i: int|
                0 <= i < defs.len() && #[trigger] path_key(platform, defs[i].path@) == x
                    && imports_into(platform, defs[i], prev);
            let m = choose|m: int| 0 <= m < defs[i].imports@.len() && prev.contains(#[trigger] path_key(platform, defs[i].imports@[m]@));
            let kf = choose|k: int| 0 <= k < files.len() && #[trigger] path_key(platform, files[k].path@) == x;
            let f = files[kf];
            assert(text(f.path@) == Some(f.content@));
            assert(same_path(platform, f.path@, defs[i].path@));
            assert(import_seen(platform, f, defs[i].imports@[m]@, resolve, is_file));
            let j = choose|j: int|
                0 <= j < file_imports(platform, f).len() && is_file(#[trigger] file_imports(platform, f)[j])
                    && match resolve(file_imports(platform, f)[j]) {
                    Some(c) => same_path(platform, c, defs[i].imports@[m]@),
                    None => false,
                };
            let q = file_imports(platform, files[kf])[j];
            let c = resolve(q).unwrap();
            assert(holds_path(platform, files, c));
            let g = choose|g: int| 0 <= g < files.len() && same_path(platform, #[trigger] files[g].path@, c);
            assert(path_key(platform, files[g].path@) == path_key(platform, defs[i].imports@[m]@));
            lemma_reach_held(
                platform,
                selected,
                defs,
                roots,
                group,
                resolve,
                text,
                is_file,
                (n - 1) as nat,
                path_key(platform, defs[i].imports@[m]@),
            );
        }
    }
}

/// A group loaded completely from the roots that the discovery gave holds the dictionary that
/// was opened: each root imports it, directly or through other dictionaries, and a complete
/// load follows every import. This needs the opened path to be resolved already, and the
/// scan's definitions to agree with the file system that the load read (`scan_agrees`).
pub proof fn lemma_group_holds_selected(
    platform: Platform,
    selected: Seq<char>,
    defs: Seq<GroupDefinition>,
    roots: Seq<String>,
    group: DictionaryGroup,
    resolve: spec_fn(Seq<char>) -> Option<Seq<char>>,
    text: spec_fn(Seq<char>) -> Option<Seq<char>>,
    is_file: spec_fn(Seq<char>) -> bool,
)
    requires
        are_group_roots(platform, selected, defs, string_texts(roots)) || string_texts(roots) == seq![selected],
        group_complete(platform, roots, group, resolve, text, is_file),
        resolve(selected) == Some(selected),
        scan_agrees(platform, defs, resolve, text, is_file),
    ensures
        holds_path(platform, group.files@, selected),
{
    let files = group.files@;
    let rk = root_keys(platform, selected, defs);
    let texts_of_roots = string_texts(roots);
    if texts_of_roots == seq![selected] || !(exists|c: Seq<Seq<char>>| rk.contains(c)) {
        assert(texts_of_roots == seq![selected]);
        assert(texts_of_roots[0] == roots[0]@);
        assert(resolve(roots[0]@) == Some(selected));
    } else {
        let c = choose|c: Seq<Seq<char>>| rk.contains(c);
        let i = choose|i: int| 0 <= i < texts_of_roots.len() && #[trigger] path_key(platform, texts_of_roots[i]) == c;
        assert(texts_of_roots[i] == roots[i]@);
        let r = roots[i]@;
        if r != selected {
            let k = choose|k: int| 0 <= k < defs.len() && defs[k].path@ == r;
            assert(resolve(defs[k].path@) == Some(defs[k].path@));
        }
        assert(resolve(roots[i]@) == Some(r));
        assert(holds_path(platform, files, r));
        let g = choose|g: int| 0 <= g < files.len() && same_path(platform, #[trigger] files[g].path@, r);
        assert(path_key(platform, files[g].path@) == c);
        assert(holds_key(platform, files, c));
        let n = choose|n: nat| #[trigger] reach(platform, selected, defs, n).contains(c);
        lemma_reach_held(platform, selected, defs, roots, group, resolve, text, is_file, n, c);
        let h = choose|h: int| 0 <= h < files.len() && #[trigger] path_key(platform, files[h].path@) == path_key(platform, selected);
        assert(same_path(platform, files[h].path@, selected));
    }
}


/// A dictionary belongs to the group of the selected one as soon as any one of its imports
/// does: whichever import it is, if it names a member, the importer is a member too. And no
/// member's import, whichever it is, names a root of the group.
pub proof fn lemma_any_import_joins_the_group(
    platform: Platform,
    selected: Seq<char>,
    defs: Seq<GroupDefinition>,
    i: int,
    m: int,
)
    requires
        0 <= i < defs.len(),
        0 <= m < defs[i].imports@.len(),
    ensures
        ancestor_keys(platform, selected, defs).contains(path_key(platform, defs[i].imports@[m]@))
            ==> ancestor_keys(platform, selected, defs).contains(path_key(platform, defs[i].path@)),
        ancestor_keys(platform, selected, defs).contains(path_key(platform, defs[i].path@))
            ==> !root_keys(platform, selected, defs).contains(path_key(platform, defs[i].imports@[m]@)),
{
    let a = ancestor_keys(platform, selected, defs);
    lemma_ancestors_least_closed(platform, selected, defs, a);
    if a.contains(path_key(platform, defs[i].imports@[m]@)) {
        assert(imports_into(platform, defs[i], a));
    }
    if a.contains(path_key(platform, defs[i].path@)) {
        assert(imports_key(platform, defs[i], path_key(platform, defs[i].imports@[m]@)));
    }
}


/// The file of an imported table is named after the table: its file name is the table with
/// `.dict.yaml` added, or the table itself when it already ends with `.dict.yaml` (any other
/// dots in it count for nothing), and so it always has a dictionary file name. This holds for
/// a table without separators or colons, in any directory (on Windows, one that does not
/// start with two separators).
pub proof fn lemma_table_file_name(platform: Platform, directory: Seq<char>, table: Seq<char>)
    requires
        forall|k: int| 0 <= k < table.len() ==> !is_separator(platform, #[trigger] table[k]) && table[k] != ':',
        !(platform == Platform::Windows && directory.len() >= 2 && is_separator(platform, directory[0])
            && is_separator(platform, directory[1])),
    ensures
        file_name(platform, dictionary_file_path(platform, directory, table)) == Some(
            if ends_with(table, seq!['.', 'd', 'i', 'c', 't', '.', 'y', 'a', 'm', 'l']) {
                table
            } else {
                table + seq!['.', 'd', 'i', 'c', 't', '.', 'y', 'a', 'm', 'l']
            },
        ),
        has_dictionary_file_name(platform, dictionary_file_path(platform, directory, table)),
{
    let ext = seq!['.', 'd', 'i', 'c', 't', '.', 'y', 'a', 'm', 'l'];
    assert(ext =~= dictionary_extension());
    let name = if ends_with(table, ext) {
        table
    } else {
        table + ext
    };
    assert(ends_with(name, ext)) by {
        if !ends_with(table, ext) {
            assert(name.subrange(name.len() - ext.len(), name.len() as int) =~= ext);
        }
    }
    assert forall|k: int| 0 <= k < name.len() implies !is_separator(platform, #[trigger] name[k]) && name[k] != ':' by {
        if k >= table.len() {
            assert(name[k] == ext[k - table.len()]);
        }
    }
    assert(name.len() >= 10);
    assert(name != seq!['.']);
    assert(name != seq!['.', '.']);
    assert(!has_drive_prefix(platform, name));
    lemma_join_file_name(platform, directory, name);
    lemma_dictionary_file_names(platform, directory, name);
}


proof fn lemma_next_newline_shift(p: Seq<char>, b: Seq<char>, j: int)
    requires
        0 <= j <= b.len(),
    ensures
        next_newline(p + b, p.len() + j) == p.len() + next_newline(b, j),
    decreases b.len() - j,
{
    if j < b.len() {
        assert((p + b)[p.len() + j] == b[j]);
        lemma_next_newline_shift(p, b, j + 1);
    }
}

proof fn lemma_lines_shift(p: Seq<char>, b: Seq<char>, j: int)
    requires
        0 <= j <= b.len(),
    ensures
        lines_from(p + b, p.len() + j) == lines_from(b, j),
    decreases b.len() - j,
{
    if j < b.len() {
        lemma_next_newline_shift(p, b, j);
        lemma_next_newline_bounds(b, j);
        let e = next_newline(b, j);
        assert((p + b).subrange(p.len() + j, p.len() + e) =~= b.subrange(j, e));
        if e < b.len() {
            lemma_lines_shift(p, b, e + 1);
        }
    }
}

proof fn lemma_next_newline_line(a: Seq<char>, b: Seq<char>, i: int)
    requires
        0 <= i <= a.len(),
        forall|k: int| 0 <= k < a.len() ==> #[trigger] a[k] != '\n',
    ensures
        next_newline(a + seq!['\n'] + b, i) == a.len(),
    decreases a.len() - i,
{
    let s = a + seq!['\n'] + b;
    if i < a.len() {
        assert(s[i] == a[i]);
        lemma_next_newline_line(a, b, i + 1);
    } else {
        assert(s[i] == '\n');
    }
}

/// The lines of a line, a line break and more text: that line, then the lines of the rest.
proof fn lemma_lines_cons(a: Seq<char>, b: Seq<char>)
    requires
        forall|k: int| 0 <= k < a.len() ==> #[trigger] a[k] != '\n',
    ensures
        lines(a + seq!['\n'] + b) == seq![line_text(a, true)] + lines(b),
{
    let s = a + seq!['\n'] + b;
    lemma_next_newline_line(a, b, 0);
    assert(s.subrange(0, a.len() as int) =~= a);
    assert(s =~= (a + seq!['\n']) + b);
    lemma_lines_shift(a + seq!['\n'], b, 0);
}

proof fn lemma_lines_of_joined(ls: Seq<Seq<char>>, x: Seq<char>)
    requires
        ls.len() > 0,
        forall|i: int, k: int| 0 <= i < ls.len() && 0 <= k < ls[i].len() ==> #[trigger] ls[i][k] != '\n',
        forall|i: int| 0 <= i < ls.len() ==> !((#[trigger] ls[i]).len() > 0 && ls[i].last() == '\r'),
    ensures
        lines(join_lines(ls) + seq!['\n'] + x) == ls + lines(x),
    decreases ls.len(),
{
    if ls.len() == 1 {
        assert(ls[0] == ls[0]);
        lemma_lines_cons(ls[0], x);
        assert(seq![ls[0]] =~= ls);
    } else {
        let init = ls.drop_last();
        let last = ls.last();
        assert(ls[ls.len() - 1] == last);
        let x2 = last + seq!['\n'] + x;
        assert(join_lines(ls) + seq!['\n'] + x =~= join_lines(init) + seq!['\n'] + x2);
        assert forall|i: int, k: int| 0 <= i < init.len() && 0 <= k < init[i].len() implies #[trigger] init[i][k] != '\n' by {
            assert(init[i] == ls[i]);
        }
        assert forall|i: int| 0 <= i < init.len() implies !((#[trigger] init[i]).len() > 0 && init[i].last() == '\r') by {
            assert(init[i] == ls[i]);
        }
        lemma_lines_of_joined(init, x2);
        assert forall|k: int| 0 <= k < last.len() implies #[trigger] last[k] != '\n' by {
            assert(ls[ls.len() - 1][k] != '\n');
        }
        lemma_lines_cons(last, x);
        assert(init + (seq![last] + lines(x)) =~= ls + lines(x));
    }
}

proof fn lemma_header_lines_run(ls: Seq<Seq<char>>, e: Seq<char>, r: Seq<Seq<char>>)
    requires
        forall|i: int| 0 <= i < ls.len() ==> trim(#[trigger] ls[i]) != seq!['.', '.', '.'],
        trim(e) == seq!['.', '.', '.'],
    ensures
        header_lines(ls + seq![e] + r) == ls,
    decreases ls.len(),
{
    let all = ls + seq![e] + r;
    if ls.len() == 0 {
        assert(all[0] == e);
    } else {
        assert(all[0] == ls[0]);
        assert(trim(ls[0]) != document_end());
        assert(all.drop_first() =~= ls.drop_first() + seq![e] + r);
        assert forall|i: int| 0 <= i < ls.drop_first().len() implies trim(#[trigger] ls.drop_first()[i]) != seq!['.', '.', '.'] by {
            assert(ls.drop_first()[i] == ls[i + 1]);
        }
        lemma_header_lines_run(ls.drop_first(), e, r);
        assert(seq![ls[0]] + ls.drop_first() =~= ls);
    }
}

/// The header of a dictionary runs to its first line whose trimmed text is `...`, and only
/// that line ends it: for lines `ls`, none of which trims to `...` (blank lines, comments and
/// lines holding `...` among other text included), followed by such a line `e` and any rest,
/// the header is exactly `ls` joined with `\n`.
pub proof fn lemma_header_runs_to_end_line(ls: Seq<Seq<char>>, e: Seq<char>, rest: Seq<char>)
    requires
        ls.len() > 0,
        forall|i: int, k: int| 0 <= i < ls.len() && 0 <= k < ls[i].len() ==> #[trigger] ls[i][k] != '\n',
        forall|i: int| 0 <= i < ls.len() ==> !((#[trigger] ls[i]).len() > 0 && ls[i].last() == '\r'),
        forall|i: int| 0 <= i < ls.len() ==> trim(#[trigger] ls[i]) != seq!['.', '.', '.'],
        forall|k: int| 0 <= k < e.len() ==> #[trigger] e[k] != '\n',
        !(e.len() > 0 && e.last() == '\r'),
        trim(e) == seq!['.', '.', '.'],
    ensures
        header_text(join_lines(ls) + seq!['\n'] + e + seq!['\n'] + rest) == join_lines(ls),
{
    let x = e + seq!['\n'] + rest;
    assert(join_lines(ls) + seq!['\n'] + e + seq!['\n'] + rest =~= join_lines(ls) + seq!['\n'] + x);
    lemma_lines_of_joined(ls, x);
    lemma_lines_cons(e, rest);
    assert(line_text(e, true) == e);
    assert(ls + (seq![e] + lines(rest)) =~= ls + seq![e] + lines(rest));
    lemma_header_lines_run(ls, e, lines(rest));
}

} // verus!
