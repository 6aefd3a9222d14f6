//! Paths held as strings, with the meaning that `std::path` gives them: components, joining,
//! parents, file names, equality and order.
//!
//! A component is held as its text; the root is held as the empty text (no other component is
//! empty), the current directory as `"."`, the parent directory as `".."`, and a Windows prefix
//! as its text, such as `"C:"` or `"\\?\C:"`.
use vstd::prelude::*;
use crate::deployer::Platform;
use crate::order::{
    lex_lt, text_lt, char_order, strict_total_order, lemma_char_order, lemma_lex_order,
    lemma_lex_transitive, lemma_lex_total, lemma_lex_irreflexive, chars_less, lex_order,
};
use crate::text::{chars_of, string_of, range_equals, ends_with, vec_ends_with};

verus! {

/// Whether `c` separates components: `/` everywhere, and `\` too on Windows.
pub open spec fn is_separator(platform: Platform, c: char) -> bool {
    c == '/' || (platform == Platform::Windows && c == '\\')
}

/// The separator that joining inserts.
pub open spec fn main_separator(platform: Platform) -> char {
    if platform == Platform::Windows {
        '\\'
    } else {
        '/'
    }
}

/// Whether `c` is an ASCII letter.
pub open spec fn is_ascii_letter(c: char) -> bool {
    ('a' <= c && c <= 'z') || ('A' <= c && c <= 'Z')
}

/// Whether `p` starts with a Windows drive prefix such as `C:`.
pub open spec fn has_drive_prefix(platform: Platform, p: Seq<char>) -> bool {
    platform == Platform::Windows && p.len() >= 2 && is_ascii_letter(p[0]) && p[1] == ':'
}

/// Whether `p` is exactly a Windows drive prefix.
pub open spec fn is_drive(platform: Platform, p: Seq<char>) -> bool {
    has_drive_prefix(platform, p) && p.len() == 2
}

/// Whether `p` is a Windows verbatim path: it starts with `\\?\`.
pub open spec fn is_verbatim(platform: Platform, p: Seq<char>) -> bool {
    platform == Platform::Windows && p.len() >= 4 && p[0] == '\\' && p[1] == '\\' && p[2] == '?'
        && p[3] == '\\'
}

/// Whether `c` separates components of a path, verbatim or not: in a verbatim path only `\`
/// does.
pub open spec fn separates(platform: Platform, verbatim: bool, c: char) -> bool {
    if verbatim {
        c == '\\'
    } else {
        is_separator(platform, c)
    }
}

/// How many characters of `p` from `start` on come before the next separator or the end.
pub open spec fn piece_len(platform: Platform, verbatim: bool, p: Seq<char>, start: int) -> int
    decreases p.len() - start,
{
    if 0 <= start < p.len() && !separates(platform, verbatim, p[start]) {
        1 + piece_len(platform, verbatim, p, start + 1)
    } else {
        0
    }
}

/// The length of the Windows prefix that `p` starts with, as `std::path` parses it: a drive
/// `C:`; a share `\\server\share`; a device `\\.\name`; or a verbatim `\\?\C:`,
/// `\\?\UNC\server\share` or `\\?\name`. 0 when it has none.
pub open spec fn prefix_len(platform: Platform, p: Seq<char>) -> int {
    if platform != Platform::Windows {
        0
    } else if p.len() >= 2 && is_separator(platform, p[0]) && is_separator(platform, p[1]) {
        if is_verbatim(platform, p) {
            if p.len() >= 8 && p[4] == 'U' && p[5] == 'N' && p[6] == 'C' && is_separator(platform, p[7]) {
                let server = piece_len(platform, true, p, 8);
                let share = piece_len(platform, true, p, 9 + server);
                8 + server + if share > 0 {
                    1 + share
                } else {
                    0
                }
            } else if p.len() >= 6 && is_ascii_letter(p[4]) && p[5] == ':' && (p.len() == 6
                || is_separator(platform, p[6])) {
                6
            } else {
                4 + piece_len(platform, true, p, 4)
            }
        } else if p.len() >= 4 && p[2] == '.' && is_separator(platform, p[3]) {
            4 + piece_len(platform, false, p, 4)
        } else {
            let server = piece_len(platform, false, p, 2);
            let share = piece_len(platform, false, p, 3 + server);
            if server > 0 && share > 0 {
                3 + server + share
            } else {
                0
            }
        }
    } else if has_drive_prefix(platform, p) {
        2
    } else {
        0
    }
}

/// Whether `c`, the first component of a path, is a Windows prefix: a drive, or text that
/// starts with two separators.
pub open spec fn is_prefix_component(platform: Platform, c: Seq<char>) -> bool {
    is_drive(platform, c) || (platform == Platform::Windows && c.len() >= 2 && is_separator(
        platform,
        c[0],
    ) && is_separator(platform, c[1]))
}

/// The component that stands for the root directory.
pub open spec fn root_marker() -> Seq<char> {
    seq![]
}

/// Whether a piece between separators is a component: empty pieces are not, and `.` only as
/// the first piece of a relative path, or anywhere in a verbatim path.
pub open spec fn keep_piece(piece: Seq<char>, first: bool) -> bool {
    piece.len() > 0 && (piece != seq!['.'] || first)
}

/// The components of `s` from position `i` on, where the current piece started at `start`.
pub open spec fn scan_parts(platform: Platform, verbatim: bool, s: Seq<char>, i: int, start: int, first: bool) -> Seq<
    Seq<char>,
>
    decreases s.len() - i,
{
    if i >= s.len() {
        if keep_piece(s.subrange(start, s.len() as int), first || verbatim) {
            seq![s.subrange(start, s.len() as int)]
        } else {
            seq![]
        }
    } else if separates(platform, verbatim, s[i]) {
        let piece = s.subrange(start, i);
        (if keep_piece(piece, first || verbatim) {
            seq![piece]
        } else {
            seq![]
        }) + scan_parts(platform, verbatim, s, i + 1, i + 1, false)
    } else {
        scan_parts(platform, verbatim, s, i + 1, start, first)
    }
}

/// Whether the path `p` has a root directory: a separator right after its prefix, or a
/// share or device prefix, which stands for a root of its own.
pub open spec fn has_root(platform: Platform, p: Seq<char>) -> bool {
    let k = prefix_len(platform, p);
    let verbatim = is_verbatim(platform, p);
    ||| (k < p.len() && separates(platform, verbatim, p[k]))
    ||| (k > 0 && !verbatim && !has_drive_prefix(platform, p))
}

/// The components of `p`, as `Path::components` yields them.
pub open spec fn components(platform: Platform, p: Seq<char>) -> Seq<Seq<char>> {
    let k = prefix_len(platform, p);
    let verbatim = is_verbatim(platform, p);
    let prefix: Seq<Seq<char>> = if k > 0 {
        seq![p.take(k)]
    } else {
        seq![]
    };
    let rooted = has_root(platform, p);
    let root: Seq<Seq<char>> = if rooted {
        seq![root_marker()]
    } else {
        seq![]
    };
    prefix + root + scan_parts(platform, verbatim, p.skip(k), 0, 0, !rooted)
}

/// Whether joining a component onto `dir` puts a separator between them: not after an empty
/// path, a separator, or a bare drive prefix.
pub open spec fn needs_separator(platform: Platform, dir: Seq<char>) -> bool {
    dir.len() > 0 && !is_separator(platform, dir.last()) && !is_drive(platform, dir)
}

/// Whether `c` is a name component: not the root, `.`, `..` or a prefix.
pub open spec fn is_name_component(platform: Platform, c: Seq<char>) -> bool {
    c != root_marker() && c != seq!['.'] && c != seq!['.', '.'] && !is_prefix_component(platform, c)
}

/// The components `buf` of a verbatim path after the component `c` of a joined name is
/// taken in: the root keeps only the prefix before it; `.` is dropped; `..` removes a name
/// before it; anything else is added.
pub open spec fn verbatim_step(platform: Platform, buf: Seq<Seq<char>>, c: Seq<char>) -> Seq<Seq<char>> {
    if c == root_marker() {
        (if buf.len() > 0 {
            buf.take(1)
        } else {
            buf
        }).push(root_marker())
    } else if c == seq!['.'] {
        buf
    } else if c == seq!['.', '.'] {
        if buf.len() > 0 && is_name_component(platform, buf.last()) {
            buf.drop_last()
        } else {
            buf
        }
    } else {
        buf.push(c)
    }
}

/// The components `buf` of a verbatim path after the components `cs` are taken in, in order.
pub open spec fn verbatim_steps(platform: Platform, buf: Seq<Seq<char>>, cs: Seq<Seq<char>>) -> Seq<
    Seq<char>,
>
    decreases cs.len(),
{
    if cs.len() == 0 {
        buf
    } else {
        verbatim_steps(platform, verbatim_step(platform, buf, cs[0]), cs.drop_first())
    }
}

/// Whether a separator goes after the component `c` when a verbatim path is rebuilt: after
/// anything but the root and a drive prefix.
pub open spec fn separator_after(platform: Platform, c: Seq<char>) -> bool {
    c != root_marker() && !is_drive(platform, c)
}

/// The text of a verbatim path rebuilt from its components `cs`: each component's text (the
/// root's is `\`), with `\` before every component but the root that follows one after
/// which a separator goes.
pub open spec fn verbatim_render(platform: Platform, cs: Seq<Seq<char>>) -> Seq<char>
    decreases cs.len(),
{
    if cs.len() == 0 {
        seq![]
    } else {
        let init = verbatim_render(platform, cs.drop_last());
        let c = cs.last();
        if c == root_marker() {
            init.push('\\')
        } else if cs.len() > 1 && separator_after(platform, cs[cs.len() - 2]) {
            init.push('\\') + c
        } else {
            init + c
        }
    }
}

/// `dir` joined with `name`, as `Path::join` does it: a name with a prefix replaces `dir`; onto
/// a verbatim `dir` the path is rebuilt from the components of both; a name that starts with
/// a separator replaces all of `dir` but its prefix; any other name is appended, after a
/// separator where one is needed.
pub open spec fn join_path(platform: Platform, dir: Seq<char>, name: Seq<char>) -> Seq<char> {
    if prefix_len(platform, name) > 0 {
        name
    } else if is_verbatim(platform, dir) && name.len() > 0 {
        verbatim_render(
            platform,
            verbatim_steps(platform, components(platform, dir), components(platform, name)),
        )
    } else if name.len() > 0 && is_separator(platform, name[0]) {
        dir.take(prefix_len(platform, dir)) + name
    } else if needs_separator(platform, dir) {
        dir.push(main_separator(platform)) + name
    } else {
        dir + name
    }
}

/// The path made of the components `cs`.
pub open spec fn render(platform: Platform, cs: Seq<Seq<char>>) -> Seq<char>
    decreases cs.len(),
{
    if cs.len() == 0 {
        seq![]
    } else {
        let init = render(platform, cs.drop_last());
        let c = cs.last();
        if c == root_marker() {
            init.push(main_separator(platform))
        } else if needs_separator(platform, init) {
            init.push(main_separator(platform)) + c
        } else {
            init + c
        }
    }
}

/// Whether the last of the components `cs` is a name (not the root or a prefix).
pub open spec fn ends_in_name(platform: Platform, cs: Seq<Seq<char>>) -> bool {
    &&& cs.len() > 0
    &&& cs.last() != root_marker()
    &&& !(cs.len() == 1 && is_prefix_component(platform, cs[0]))
}

/// The parent of `p`, as `Path::parent` gives it: the path without its last component, or
/// `None` for a path that is empty or ends in the root or a prefix.
pub open spec fn parent_path(platform: Platform, p: Seq<char>) -> Option<Seq<char>> {
    let cs = components(platform, p);
    if ends_in_name(platform, cs) {
        Some(render(platform, cs.drop_last()))
    } else {
        None
    }
}

/// The final component of `p` when it is a file or directory name, as `Path::file_name`
/// gives it.
pub open spec fn file_name(platform: Platform, p: Seq<char>) -> Option<Seq<char>> {
    let cs = components(platform, p);
    if ends_in_name(platform, cs) && cs.last() != seq!['.'] && cs.last() != seq!['.', '.'] {
        Some(cs.last())
    } else {
        None
    }
}

/// The file name extension of Rime dictionaries.
pub open spec fn dictionary_extension() -> Seq<char> {
    seq!['.', 'd', 'i', 'c', 't', '.', 'y', 'a', 'm', 'l']
}

/// Whether the file name of `p` ends with `.dict.yaml`.
pub open spec fn has_dictionary_file_name(platform: Platform, p: Seq<char>) -> bool {
    match file_name(platform, p) {
        Some(name) => ends_with(name, dictionary_extension()),
        None => false,
    }
}

/// `c` as an ASCII upper-case letter, when it is a lower-case one.
pub open spec fn ascii_upper(c: char) -> char {
    if 'a' <= c && c <= 'z' {
        ((c as int) - 32) as char
    } else {
        c
    }
}

/// The kind and fields of the Windows prefix of `p` (which has one), as `std::path::Prefix`
/// holds them: the kind as a digit in the order of `Prefix`'s variants (verbatim `0`,
/// verbatim share `1`, verbatim drive `2`, device `3`, share `4`, drive `5`), then the first
/// field (the name, the server, or the drive letter in upper case) and the second (the share,
/// or nothing).
pub open spec fn prefix_parts(platform: Platform, p: Seq<char>) -> (char, Seq<char>, Seq<char>) {
    if p.len() >= 2 && is_separator(platform, p[0]) && is_separator(platform, p[1]) {
        if is_verbatim(platform, p) {
            if p.len() >= 8 && p[4] == 'U' && p[5] == 'N' && p[6] == 'C' && is_separator(platform, p[7]) {
                let server = piece_len(platform, true, p, 8);
                let share = piece_len(platform, true, p, 9 + server);
                ('1', p.subrange(8, 8 + server), if share > 0 {
                    p.subrange(9 + server, 9 + server + share)
                } else {
                    seq![]
                })
            } else if p.len() >= 6 && is_ascii_letter(p[4]) && p[5] == ':' && (p.len() == 6
                || is_separator(platform, p[6])) {
                ('2', seq![ascii_upper(p[4])], seq![])
            } else {
                ('0', p.subrange(4, 4 + piece_len(platform, true, p, 4)), seq![])
            }
        } else if p.len() >= 4 && p[2] == '.' && is_separator(platform, p[3]) {
            ('3', p.subrange(4, 4 + piece_len(platform, false, p, 4)), seq![])
        } else {
            let server = piece_len(platform, false, p, 2);
            let share = piece_len(platform, false, p, 3 + server);
            ('4', p.subrange(2, 2 + server), p.subrange(3 + server, 3 + server + share))
        }
    } else {
        ('5', seq![ascii_upper(p[0])], seq![])
    }
}

/// The components by which paths are compared: those of `p`, with a Windows prefix stood for
/// by two keys made of its parsed kind and fields (`\\`, the kind and the first field; `#`
/// and the second field), so that prefixes compare as `std::path::Prefix` values do.
pub open spec fn path_keys(platform: Platform, p: Seq<char>) -> Seq<Seq<char>> {
    if prefix_len(platform, p) > 0 {
        let (kind, first, second) = prefix_parts(platform, p);
        seq![seq!['\\', '\\', kind] + first, seq!['#'] + second] + components(platform, p).drop_first()
    } else {
        components(platform, p)
    }
}

/// Two paths are equal, as `PathBuf`'s `==` and `Hash` say, when their components are, a
/// Windows prefix compared by its parsed kind and fields.
pub open spec fn same_path(platform: Platform, a: Seq<char>, b: Seq<char>) -> bool {
    path_keys(platform, a) == path_keys(platform, b)
}

/// The rank of a component in `std::path::Component`'s order: prefix, root, current
/// directory, parent directory, then names.
pub open spec fn component_rank(platform: Platform, c: Seq<char>) -> int {
    if is_prefix_component(platform, c) {
        0
    } else if c == root_marker() {
        1
    } else if c == seq!['.'] {
        2
    } else if c == seq!['.', '.'] {
        3
    } else {
        4
    }
}

/// The order of components: by rank, then by text.
pub open spec fn component_lt(platform: Platform, a: Seq<char>, b: Seq<char>) -> bool {
    component_rank(platform, a) < component_rank(platform, b) || (component_rank(platform, a)
        == component_rank(platform, b) && text_lt(a, b))
}

/// `component_lt` as a value.
pub open spec fn component_order(platform: Platform) -> spec_fn(Seq<char>, Seq<char>) -> bool {
    |x: Seq<char>, y: Seq<char>| component_lt(platform, x, y)
}

/// Component lists in order, component by component.
pub open spec fn components_lt(platform: Platform, a: Seq<Seq<char>>, b: Seq<Seq<char>>) -> bool {
    lex_lt(a, b, component_order(platform))
}

/// The order of paths, as `PathBuf`'s `Ord` gives it: component by component, a Windows
/// prefix ordered by its parsed kind and then its fields.
pub open spec fn path_lt(platform: Platform, a: Seq<char>, b: Seq<char>) -> bool {
    components_lt(platform, path_keys(platform, a), path_keys(platform, b))
}

/// The texts of a list of character vectors.
pub open spec fn texts(v: Seq<Vec<char>>) -> Seq<Seq<char>> {
    v.map_values(|x: Vec<char>| x@)
}

/// The texts of a list of strings.
pub open spec fn string_texts(v: Seq<String>) -> Seq<Seq<char>> {
    v.map_values(|x: String| x@)
}

pub proof fn lemma_component_order(platform: Platform)
    ensures
        strict_total_order(component_order(platform)),
{
    lemma_char_order();
    assert forall|x: Seq<char>, y: Seq<char>, z: Seq<char>|
        #[trigger] component_lt(platform, x, y) && #[trigger] component_lt(platform, y, z) implies component_lt(
        platform,
        x,
        z,
    ) by {
        if component_rank(platform, x) == component_rank(platform, y) && component_rank(platform, y)
            == component_rank(platform, z) {
            lemma_lex_transitive(x, y, z, char_order());
        }
    }
    assert forall|x: Seq<char>, y: Seq<char>| x != y implies #[trigger] component_lt(platform, x, y)
        || #[trigger] component_lt(platform, y, x) by {
        if component_rank(platform, x) == component_rank(platform, y) {
            lemma_lex_total(x, y, char_order());
        }
    }
    assert forall|x: Seq<char>| !#[trigger] component_lt(platform, x, x) by {
        lemma_lex_irreflexive(x, char_order());
    }
}

/// The order of component lists is a strict total order.
pub proof fn lemma_components_order(platform: Platform)
    ensures
        strict_total_order(lex_order(component_order(platform))),
{
    lemma_component_order(platform);
    lemma_lex_order(component_order(platform));
}

/// Whether `c` separates components.
pub fn is_separator_char(platform: Platform, c: char) -> (r: bool)
    ensures
        r == is_separator(platform, c),
{
    c == '/' || (platform == Platform::Windows && c == '\\')
}

/// The separator that joining inserts.
pub fn main_separator_char(platform: Platform) -> (r: char)
    ensures
        r == main_separator(platform),
{
    if platform == Platform::Windows {
        '\\'
    } else {
        '/'
    }
}

/// `v[start..end]` as a vector of its own.
pub fn sub_vec(v: &Vec<char>, start: usize, end: usize) -> (r: Vec<char>)
    requires
        start <= end <= v.len(),
    ensures
        r@ == v@.subrange(start as int, end as int),
{
    let mut out: Vec<char> = Vec::new();
    let mut i = start;
    while i < end
        invariant
            start <= i <= end <= v.len(),
            out@ == v@.subrange(start as int, i as int),
        decreases end - i,
    {
        out.push(v[i]);
        assert(v@.subrange(start as int, i + 1) == v@.subrange(start as int, i as int).push(
            v@[i as int],
        ));
        i = i + 1;
    }
    out
}

fn keep_piece_exec(piece: &Vec<char>, first: bool) -> (r: bool)
    ensures
        r == keep_piece(piece@, first),
{
    if piece.len() == 0 {
        return false;
    }
    let is_dot = piece.len() == 1 && piece[0] == '.';
    assert(is_dot == (piece@ == seq!['.'])) by {
        if piece@ == seq!['.'] {
            assert(piece@.len() == 1 && piece@[0] == '.');
        }
        if is_dot {
            assert(piece@ =~= seq!['.']);
        }
    }
    !is_dot || first
}

/// Whether `c` separates components of a path, verbatim or not.
fn separates_exec(platform: Platform, verbatim: bool, c: char) -> (r: bool)
    ensures
        r == separates(platform, verbatim, c),
{
    if verbatim {
        c == '\\'
    } else {
        is_separator_char(platform, c)
    }
}

/// Whether `c` is an ASCII letter.
fn is_ascii_letter_exec(c: char) -> (r: bool)
    ensures
        r == is_ascii_letter(c),
{
    ('a' <= c && c <= 'z') || ('A' <= c && c <= 'Z')
}

proof fn lemma_piece_len_bounds(platform: Platform, verbatim: bool, p: Seq<char>, start: int)
    requires
        0 <= start,
    ensures
        0 <= piece_len(platform, verbatim, p, start),
        start <= p.len() ==> start + piece_len(platform, verbatim, p, start) <= p.len(),
        start > p.len() ==> piece_len(platform, verbatim, p, start) == 0,
    decreases p.len() - start,
{
    if 0 <= start < p.len() && !separates(platform, verbatim, p[start]) {
        lemma_piece_len_bounds(platform, verbatim, p, start + 1);
    }
}

/// How many characters of `p` from `start` on come before the next separator or the end.
fn piece_len_exec(platform: Platform, verbatim: bool, p: &Vec<char>, start: usize) -> (r: usize)
    ensures
        r == piece_len(platform, verbatim, p@, start as int),
{
    if start >= p.len() {
        return 0;
    }
    let mut e = start;
    while e < p.len() && !separates_exec(platform, verbatim, p[e])
        invariant
            start <= e <= p.len(),
            piece_len(platform, verbatim, p@, start as int) == (e - start) + piece_len(
                platform,
                verbatim,
                p@,
                e as int,
            ),
        decreases p.len() - e,
    {
        e = e + 1;
    }
    e - start
}

/// Whether `p` is a Windows verbatim path.
fn is_verbatim_exec(platform: Platform, p: &Vec<char>) -> (r: bool)
    ensures
        r == is_verbatim(platform, p@),
{
    platform == Platform::Windows && p.len() >= 4 && p[0] == '\\' && p[1] == '\\' && p[2] == '?'
        && p[3] == '\\'
}

/// Whether `p` starts with a Windows drive prefix.
fn has_drive_prefix_exec(platform: Platform, p: &Vec<char>) -> (r: bool)
    ensures
        r == has_drive_prefix(platform, p@),
{
    platform == Platform::Windows && p.len() >= 2 && is_ascii_letter_exec(p[0]) && p[1] == ':'
}

proof fn lemma_prefix_len_bounds(platform: Platform, p: Seq<char>)
    ensures
        0 <= prefix_len(platform, p) <= p.len(),
{
    lemma_piece_len_bounds(platform, true, p, 8);
    lemma_piece_len_bounds(platform, true, p, 9 + piece_len(platform, true, p, 8));
    lemma_piece_len_bounds(platform, true, p, 4);
    lemma_piece_len_bounds(platform, false, p, 4);
    lemma_piece_len_bounds(platform, false, p, 2);
    lemma_piece_len_bounds(platform, false, p, 3 + piece_len(platform, false, p, 2));
}

/// The length of the Windows prefix that `p` starts with.
fn prefix_len_exec(platform: Platform, p: &Vec<char>) -> (r: usize)
    ensures
        r == prefix_len(platform, p@),
        r <= p.len(),
{
    proof {
        lemma_prefix_len_bounds(platform, p@);
    }
    if platform != Platform::Windows {
        0
    } else if p.len() >= 2 && is_separator_char(platform, p[0]) && is_separator_char(platform, p[1]) {
        if is_verbatim_exec(platform, p) {
            if p.len() >= 8 && p[4] == 'U' && p[5] == 'N' && p[6] == 'C' && is_separator_char(platform, p[7]) {
                let server = piece_len_exec(platform, true, p, 8);
                proof {
                    lemma_piece_len_bounds(platform, true, p@, 8);
                }
                proof {
                    lemma_piece_len_bounds(platform, true, p@, 9 + server);
                }
                let next = if 8 + server < p.len() {
                    9 + server
                } else {
                    p.len()
                };
                let share = piece_len_exec(platform, true, p, next);
                if share > 0 {
                    9 + server + share
                } else {
                    8 + server
                }
            } else if p.len() >= 6 && is_ascii_letter_exec(p[4]) && p[5] == ':' && (p.len() == 6
                || is_separator_char(platform, p[6])) {
                6
            } else {
                proof {
                    lemma_piece_len_bounds(platform, true, p@, 4);
                }
                4 + piece_len_exec(platform, true, p, 4)
            }
        } else if p.len() >= 4 && p[2] == '.' && is_separator_char(platform, p[3]) {
            proof {
                lemma_piece_len_bounds(platform, false, p@, 4);
            }
            4 + piece_len_exec(platform, false, p, 4)
        } else {
            let server = piece_len_exec(platform, false, p, 2);
            proof {
                lemma_piece_len_bounds(platform, false, p@, 2);
            }
            proof {
                lemma_piece_len_bounds(platform, false, p@, 3 + server);
            }
            let next = if 2 + server < p.len() {
                3 + server
            } else {
                p.len()
            };
            let share = piece_len_exec(platform, false, p, next);
            if server > 0 && share > 0 {
                3 + server + share
            } else {
                0
            }
        }
    } else if has_drive_prefix_exec(platform, p) {
        2
    } else {
        0
    }
}

/// The components of `s` when scanned from its start, appended to `out`.
fn scan_parts_exec(platform: Platform, verbatim: bool, s: &Vec<char>, first0: bool, out: &mut Vec<Vec<char>>)
    ensures
        texts(final(out)@) == texts(old(out)@) + scan_parts(platform, verbatim, s@, 0, 0, first0),
{
    let ghost base = texts(out@);
    let mut i: usize = 0;
    let mut start: usize = 0;
    let mut first = first0;
    while i < s.len()
        invariant
            start <= i <= s.len(),
            texts(out@) + scan_parts(platform, verbatim, s@, i as int, start as int, first) == base
                + scan_parts(platform, verbatim, s@, 0, 0, first0),
        decreases s.len() - i,
    {
        if separates_exec(platform, verbatim, s[i]) {
            let piece = sub_vec(s, start, i);
            let ghost before = texts(out@);
            if keep_piece_exec(&piece, first || verbatim) {
                out.push(piece);
                assert(texts(out@) =~= before.push(piece@));
                assert(texts(out@) + scan_parts(platform, verbatim, s@, i + 1, i + 1, false) =~= before + (
                seq![piece@] + scan_parts(platform, verbatim, s@, i + 1, i + 1, false)));
            } else {
                assert(before + scan_parts(platform, verbatim, s@, i + 1, i + 1, false) =~= before + (seq![]
                    + scan_parts(platform, verbatim, s@, i + 1, i + 1, false)));
            }
            start = i + 1;
            first = false;
        }
        i = i + 1;
    }
    let piece = sub_vec(s, start, s.len());
    let ghost before = texts(out@);
    if keep_piece_exec(&piece, first || verbatim) {
        out.push(piece);
        assert(texts(out@) =~= before.push(piece@));
        assert(texts(out@) =~= before + seq![piece@]);
    } else {
        assert(before =~= before + seq![]);
    }
}

/// The components of `p`.
pub fn components_of(platform: Platform, p: &Vec<char>) -> (r: Vec<Vec<char>>)
    ensures
        texts(r@) == components(platform, p@),
{
    let mut out: Vec<Vec<char>> = Vec::new();
    let k = prefix_len_exec(platform, p);
    let verbatim = is_verbatim_exec(platform, p);
    if k > 0 {
        out.push(sub_vec(p, 0, k));
    }
    let rest = sub_vec(p, k, p.len());
    assert(p@.subrange(0, k as int) == p@.take(k as int));
    assert(rest@ =~= p@.skip(k as int));
    assert(k > 0 ==> texts(out@) =~= seq![p@.take(k as int)]);
    assert(k == 0 ==> texts(out@) =~= Seq::<Seq<char>>::empty());
    let rooted = (k < p.len() && separates_exec(platform, verbatim, p[k])) || (k > 0 && !verbatim
        && !has_drive_prefix_exec(platform, p));
    if rooted {
        let ghost before = texts(out@);
        let marker: Vec<char> = Vec::new();
        assert(marker@ =~= root_marker());
        out.push(marker);
        assert(texts(out@) =~= before + seq![root_marker()]);
    }
    scan_parts_exec(platform, verbatim, &rest, !rooted, &mut out);
    assert(texts(out@) =~= components(platform, p@));
    out
}

/// The path made of the components `cs`.
pub fn render_components(platform: Platform, cs: &Vec<Vec<char>>) -> (r: Vec<char>)
    ensures
        r@ == render(platform, texts(cs@)),
{
    let mut out: Vec<char> = Vec::new();
    let sep = main_separator_char(platform);
    let mut i: usize = 0;
    assert(texts(cs@).take(0) =~= Seq::<Seq<char>>::empty());
    while i < cs.len()
        invariant
            i <= cs.len(),
            sep == main_separator(platform),
            out@ == render(platform, texts(cs@).take(i as int)),
        decreases cs.len() - i,
    {
        let c = &cs[i];
        let ghost init = out@;
        assert(texts(cs@).take(i + 1).drop_last() =~= texts(cs@).take(i as int));
        let is_root = c.len() == 0;
        assert(is_root == (c@ == root_marker())) by {
            if is_root {
                assert(c@ =~= root_marker());
            }
        }
        if is_root {
            out.push(sep);
        } else {
            let needs = out.len() > 0 && !is_separator_char(platform, out[out.len() - 1]) && !(
            has_drive_prefix_exec(platform, &out) && out.len() == 2);
            if needs {
                out.push(sep);
            }
            let ghost mid = out@;
            let mut k: usize = 0;
            while k < c.len()
                invariant
                    k <= c.len(),
                    out@ == mid + c@.take(k as int),
                decreases c.len() - k,
            {
                out.push(c[k]);
                assert(mid + c@.take(k + 1) =~= (mid + c@.take(k as int)).push(c@[k as int]));
                k = k + 1;
            }
            assert(c@.take(c@.len() as int) =~= c@);
        }
        i = i + 1;
    }
    assert(texts(cs@).take(cs@.len() as int) =~= texts(cs@));
    out
}

/// Whether `c` is a name component.
fn is_name_component_exec(platform: Platform, c: &Vec<char>) -> (r: bool)
    ensures
        r == is_name_component(platform, c@),
{
    let rank = component_rank_exec(platform, c);
    proof {
        if rank == 4 {
            assert(c@ != root_marker());
        }
    }
    rank == 4
}

/// The components `buf` of a verbatim path after the components `cs` are taken in.
fn verbatim_join(platform: Platform, buf: Vec<Vec<char>>, cs: &Vec<Vec<char>>) -> (r: Vec<Vec<char>>)
    ensures
        texts(r@) == verbatim_steps(platform, texts(buf@), texts(cs@)),
{
    let mut out = buf;
    let mut i: usize = 0;
    assert(texts(cs@).skip(0) =~= texts(cs@));
    while i < cs.len()
        invariant
            i <= cs.len(),
            verbatim_steps(platform, texts(buf@), texts(cs@)) == verbatim_steps(
                platform,
                texts(out@),
                texts(cs@).skip(i as int),
            ),
        decreases cs.len() - i,
    {
        let c = &cs[i];
        let ghost before = texts(out@);
        let ghost rest = texts(cs@).skip(i as int);
        assert(rest[0] == c@);
        assert(rest.drop_first() =~= texts(cs@).skip(i + 1));
        let is_root = c.len() == 0;
        let dot = c.len() == 1 && c[0] == '.';
        let dotdot = c.len() == 2 && c[0] == '.' && c[1] == '.';
        assert(is_root == (c@ == root_marker())) by {
            if is_root {
                assert(c@ =~= root_marker());
            }
        }
        assert(dot == (c@ == seq!['.'])) by {
            if c@ == seq!['.'] {
                assert(c@.len() == 1 && c@[0] == '.');
            }
            if dot {
                assert(c@ =~= seq!['.']);
            }
        }
        assert(dotdot == (c@ == seq!['.', '.'])) by {
            if c@ == seq!['.', '.'] {
                assert(c@.len() == 2 && c@[0] == '.' && c@[1] == '.');
            }
            if dotdot {
                assert(c@ =~= seq!['.', '.']);
            }
        }
        if is_root {
            out.truncate(1);
            out.push(Vec::new());
            assert(texts(out@) =~= (if before.len() > 0 {
                before.take(1)
            } else {
                before
            }).push(root_marker()));
        } else if dot {
        } else if dotdot {
            if out.len() > 0 && is_name_component_exec(platform, &out[out.len() - 1]) {
                out.pop();
                assert(texts(out@) =~= before.drop_last());
            }
        } else {
            out.push(c.clone());
            assert(texts(out@) =~= before.push(c@));
        }
        assert(texts(out@) == verbatim_step(platform, before, c@));
        i = i + 1;
    }
    out
}

/// The text of a verbatim path rebuilt from its components `cs`.
fn verbatim_render_exec(platform: Platform, cs: &Vec<Vec<char>>) -> (r: Vec<char>)
    ensures
        r@ == verbatim_render(platform, texts(cs@)),
{
    let mut out: Vec<char> = Vec::new();
    let mut i: usize = 0;
    assert(texts(cs@).take(0) =~= Seq::<Seq<char>>::empty());
    while i < cs.len()
        invariant
            i <= cs.len(),
            out@ == verbatim_render(platform, texts(cs@).take(i as int)),
        decreases cs.len() - i,
    {
        let c = &cs[i];
        let ghost init = out@;
        let ghost upto = texts(cs@).take(i + 1);
        assert(upto.drop_last() =~= texts(cs@).take(i as int));
        assert(upto.last() == c@);
        if c.len() == 0 {
            assert(c@ =~= root_marker());
            out.push('\\');
        } else {
            if i > 0 {
                let prev = &cs[i - 1];
                assert(upto[upto.len() - 2] == prev@);
                let after = prev.len() != 0 && !(has_drive_prefix_exec(platform, prev) && prev.len() == 2);
                assert(after == separator_after(platform, prev@)) by {
                    if prev.len() == 0 {
                        assert(prev@ =~= root_marker());
                    }
                }
                if after {
                    out.push('\\');
                }
            }
            let ghost mid = out@;
            let mut k: usize = 0;
            while k < c.len()
                invariant
                    k <= c.len(),
                    out@ == mid + c@.take(k as int),
                decreases c.len() - k,
            {
                out.push(c[k]);
                assert(mid + c@.take(k + 1) =~= (mid + c@.take(k as int)).push(c@[k as int]));
                k = k + 1;
            }
            assert(c@.take(c@.len() as int) =~= c@);
        }
        i = i + 1;
    }
    assert(texts(cs@).take(cs@.len() as int) =~= texts(cs@));
    out
}

/// `dir` joined with `name`, as `Path::join` does it.
pub fn join(platform: Platform, dir: &str, name: &str) -> (r: String)
    ensures
        r@ == join_path(platform, dir@, name@),
{
    let d = chars_of(dir);
    let n = chars_of(name);
    if prefix_len_exec(platform, &n) > 0 {
        return string_of(&n);
    }
    if is_verbatim_exec(platform, &d) && n.len() > 0 {
        let cs = components_of(platform, &d);
        let ns = components_of(platform, &n);
        let joined = verbatim_join(platform, cs, &ns);
        let text = verbatim_render_exec(platform, &joined);
        return string_of(&text);
    }
    let mut out = if n.len() > 0 && is_separator_char(platform, n[0]) {
        let k = prefix_len_exec(platform, &d);
        let kept = sub_vec(&d, 0, k);
        assert(kept@ =~= d@.take(k as int));
        kept
    } else {
        let needs = d.len() > 0 && !is_separator_char(platform, d[d.len() - 1]) && !(
        has_drive_prefix_exec(platform, &d) && d.len() == 2);
        let mut copy = d;
        if needs {
            copy.push(main_separator_char(platform));
        }
        copy
    };
    let ghost mid = out@;
    let mut k: usize = 0;
    while k < n.len()
        invariant
            k <= n.len(),
            out@ == mid + n@.take(k as int),
        decreases n.len() - k,
    {
        out.push(n[k]);
        assert(mid + n@.take(k + 1) =~= (mid + n@.take(k as int)).push(n@[k as int]));
        k = k + 1;
    }
    assert(n@.take(n@.len() as int) =~= n@);
    string_of(&out)
}

/// Whether the components `cs` end in a name.
fn ends_in_name_exec(platform: Platform, cs: &Vec<Vec<char>>) -> (r: bool)
    ensures
        r == ends_in_name(platform, texts(cs@)),
{
    if cs.len() == 0 {
        return false;
    }
    let last = &cs[cs.len() - 1];
    let is_root = last.len() == 0;
    assert(is_root == (last@ == root_marker())) by {
        if is_root {
            assert(last@ =~= root_marker());
        }
    }
    let only_prefix = cs.len() == 1 && is_prefix_component_exec(platform, &cs[0]);
    !is_root && !only_prefix
}

/// The parent of `p`, as `Path::parent` gives it.
pub fn parent(platform: Platform, p: &str) -> (r: Option<String>)
    ensures
        r matches Some(s) ==> parent_path(platform, p@) == Some(s@),
        r is None ==> parent_path(platform, p@) is None,
{
    let v = chars_of(p);
    let mut cs = components_of(platform, &v);
    if !ends_in_name_exec(platform, &cs) {
        return None;
    }
    let ghost all = texts(cs@);
    cs.pop();
    assert(texts(cs@) =~= all.drop_last());
    let rendered = render_components(platform, &cs);
    Some(string_of(&rendered))
}

/// The file name of `p`, as `Path::file_name` gives it.
pub fn file_name_of(platform: Platform, p: &str) -> (r: Option<String>)
    ensures
        r matches Some(n) ==> file_name(platform, p@) == Some(n@),
        r is None ==> file_name(platform, p@) is None,
{
    let v = chars_of(p);
    let cs = components_of(platform, &v);
    if !ends_in_name_exec(platform, &cs) {
        return None;
    }
    let last = &cs[cs.len() - 1];
    assert(texts(cs@).last() == last@);
    let dot = last.len() == 1 && last[0] == '.';
    let dotdot = last.len() == 2 && last[0] == '.' && last[1] == '.';
    assert(dot == (last@ == seq!['.'])) by {
        if last@ == seq!['.'] {
            assert(last@.len() == 1 && last@[0] == '.');
        }
        if dot {
            assert(last@ =~= seq!['.']);
        }
    }
    assert(dotdot == (last@ == seq!['.', '.'])) by {
        if last@ == seq!['.', '.'] {
            assert(last@.len() == 2 && last@[0] == '.' && last@[1] == '.');
        }
        if dotdot {
            assert(last@ =~= seq!['.', '.']);
        }
    }
    if dot || dotdot {
        return None;
    }
    Some(string_of(last))
}

/// Whether the file name of `p` ends with `.dict.yaml`.
pub fn dictionary_file_name(platform: Platform, p: &str) -> (r: bool)
    ensures
        r == has_dictionary_file_name(platform, p@),
{
    match file_name_of(platform, p) {
        None => false,
        Some(name) => {
            proof {
                reveal_strlit(".dict.yaml");
            }
            assert(".dict.yaml"@ =~= dictionary_extension());
            crate::text::str_ends_with(name.as_str(), ".dict.yaml")
        },
    }
}

/// `c` as an ASCII upper-case letter, when it is a lower-case one.
fn ascii_upper_exec(c: char) -> (r: char)
    ensures
        r == ascii_upper(c),
{
    if 'a' <= c && c <= 'z' {
        let b: u8 = c as u8;
        let up: u8 = b - 32;
        assert(up as int == (c as int) - 32);
        up as char
    } else {
        c
    }
}

/// The kind and fields of the Windows prefix of `p`.
fn prefix_parts_exec(platform: Platform, p: &Vec<char>) -> (r: (char, Vec<char>, Vec<char>))
    requires
        prefix_len(platform, p@) > 0,
    ensures
        (r.0, r.1@, r.2@) == prefix_parts(platform, p@),
{
    proof {
        lemma_piece_len_bounds(platform, true, p@, 8);
        lemma_piece_len_bounds(platform, true, p@, 9 + piece_len(platform, true, p@, 8));
        lemma_piece_len_bounds(platform, true, p@, 4);
        lemma_piece_len_bounds(platform, false, p@, 4);
        lemma_piece_len_bounds(platform, false, p@, 2);
        lemma_piece_len_bounds(platform, false, p@, 3 + piece_len(platform, false, p@, 2));
    }
    if p.len() >= 2 && is_separator_char(platform, p[0]) && is_separator_char(platform, p[1]) {
        if is_verbatim_exec(platform, p) {
            if p.len() >= 8 && p[4] == 'U' && p[5] == 'N' && p[6] == 'C' && is_separator_char(platform, p[7]) {
                let server = piece_len_exec(platform, true, p, 8);
                let first = sub_vec(p, 8, 8 + server);
                let next = if 8 + server < p.len() {
                    9 + server
                } else {
                    p.len()
                };
                let share = piece_len_exec(platform, true, p, next);
                let second = if share > 0 {
                    sub_vec(p, 9 + server, 9 + server + share)
                } else {
                    Vec::new()
                };
                proof {
                    if share == 0 {
                        assert(second@ =~= Seq::<char>::empty());
                    }
                }
                ('1', first, second)
            } else if p.len() >= 6 && is_ascii_letter_exec(p[4]) && p[5] == ':' && (p.len() == 6
                || is_separator_char(platform, p[6])) {
                let mut first: Vec<char> = Vec::new();
                first.push(ascii_upper_exec(p[4]));
                assert(first@ =~= seq![ascii_upper(p@[4])]);
                ('2', first, Vec::new())
            } else {
                let n = piece_len_exec(platform, true, p, 4);
                ('0', sub_vec(p, 4, 4 + n), Vec::new())
            }
        } else if p.len() >= 4 && p[2] == '.' && is_separator_char(platform, p[3]) {
            let n = piece_len_exec(platform, false, p, 4);
            ('3', sub_vec(p, 4, 4 + n), Vec::new())
        } else {
            let server = piece_len_exec(platform, false, p, 2);
            let next = if 2 + server < p.len() {
                3 + server
            } else {
                p.len()
            };
            let share = piece_len_exec(platform, false, p, next);
            // a share prefix has a non-empty share, so a separator follows the server
            assert(share > 0);
            ('4', sub_vec(p, 2, 2 + server), sub_vec(p, 3 + server, 3 + server + share))
        }
    } else {
        let mut first: Vec<char> = Vec::new();
        first.push(ascii_upper_exec(p[0]));
        assert(first@ =~= seq![ascii_upper(p@[0])]);
        (('5', first, Vec::new()))
    }
}

/// The components by which `p` is compared.
pub fn key_components_of(platform: Platform, p: &Vec<char>) -> (r: Vec<Vec<char>>)
    ensures
        texts(r@) == path_keys(platform, p@),
{
    let cs = components_of(platform, p);
    if prefix_len_exec(platform, p) == 0 {
        return cs;
    }
    let (kind, first, second) = prefix_parts_exec(platform, p);
    let mut head: Vec<char> = Vec::new();
    head.push('\\');
    head.push('\\');
    head.push(kind);
    let mut k: usize = 0;
    while k < first.len()
        invariant
            k <= first.len(),
            head@ == seq!['\\', '\\', kind] + first@.take(k as int),
        decreases first.len() - k,
    {
        head.push(first[k]);
        assert(first@.take(k + 1) =~= first@.take(k as int).push(first@[k as int]));
        k = k + 1;
    }
    assert(first@.take(first@.len() as int) =~= first@);
    let mut tail: Vec<char> = Vec::new();
    tail.push('#');
    let mut k: usize = 0;
    while k < second.len()
        invariant
            k <= second.len(),
            tail@ == seq!['#'] + second@.take(k as int),
        decreases second.len() - k,
    {
        tail.push(second[k]);
        assert(second@.take(k + 1) =~= second@.take(k as int).push(second@[k as int]));
        k = k + 1;
    }
    assert(second@.take(second@.len() as int) =~= second@);
    let mut out: Vec<Vec<char>> = Vec::new();
    out.push(head);
    out.push(tail);
    let mut i: usize = 1;
    assert(texts(cs@).len() > 0);
    while i < cs.len()
        invariant
            1 <= i <= cs.len(),
            texts(out@) == seq![seq!['\\', '\\', kind] + first@, seq!['#'] + second@] + texts(cs@).subrange(1, i as int),
        decreases cs.len() - i,
    {
        let c = &cs[i];
        let copy = sub_vec(c, 0, c.len());
        assert(copy@ =~= c@);
        let ghost before = texts(out@);
        out.push(copy);
        assert(texts(out@) =~= before.push(c@));
        assert(texts(cs@).subrange(1, i + 1) =~= texts(cs@).subrange(1, i as int).push(cs@[i as int]@));
        assert(texts(out@) =~= seq![seq!['\\', '\\', kind] + first@, seq!['#'] + second@] + texts(cs@).subrange(1, i + 1));
        i = i + 1;
    }
    assert(texts(cs@).subrange(1, cs@.len() as int) =~= texts(cs@).drop_first());
    out
}

/// Whether two lists of components are the same.
pub(crate) fn same_components(a: &Vec<Vec<char>>, b: &Vec<Vec<char>>) -> (r: bool)
    ensures
        r == (texts(a@) == texts(b@)),
{
    if a.len() != b.len() {
        assert(texts(a@).len() != texts(b@).len());
        return false;
    }
    let mut i: usize = 0;
    while i < a.len()
        invariant
            a.len() == b.len(),
            i <= a.len(),
            forall|k: int| 0 <= k < i ==> a@[k]@ == b@[k]@,
        decreases a.len() - i,
    {
        let ai = &a[i];
        let eq = range_equals(ai, 0, ai.len(), &b[i]);
        assert(ai@.subrange(0, ai@.len() as int) == ai@);
        if !eq {
            assert(texts(a@)[i as int] != texts(b@)[i as int]);
            return false;
        }
        i = i + 1;
    }
    assert(texts(a@) =~= texts(b@));
    true
}

/// Whether `a` and `b` name the same path, as `PathBuf`'s `==` says.
pub fn paths_equal(platform: Platform, a: &str, b: &str) -> (r: bool)
    ensures
        r == same_path(platform, a@, b@),
{
    let va = chars_of(a);
    let vb = chars_of(b);
    let ca = key_components_of(platform, &va);
    let cb = key_components_of(platform, &vb);
    same_components(&ca, &cb)
}

/// Whether `c` is a Windows prefix component.
fn is_prefix_component_exec(platform: Platform, c: &Vec<char>) -> (r: bool)
    ensures
        r == is_prefix_component(platform, c@),
{
    (has_drive_prefix_exec(platform, c) && c.len() == 2) || (platform == Platform::Windows && c.len()
        >= 2 && is_separator_char(platform, c[0]) && is_separator_char(platform, c[1]))
}

fn component_rank_exec(platform: Platform, c: &Vec<char>) -> (r: u8)
    ensures
        r as int == component_rank(platform, c@),
{
    let drive = is_prefix_component_exec(platform, c);
    let root = c.len() == 0;
    let dot = c.len() == 1 && c[0] == '.';
    let dotdot = c.len() == 2 && c[0] == '.' && c[1] == '.';
    assert(root == (c@ == root_marker())) by {
        if root {
            assert(c@ =~= root_marker());
        }
    }
    assert(dot == (c@ == seq!['.'])) by {
        if c@ == seq!['.'] {
            assert(c@.len() == 1 && c@[0] == '.');
        }
        if dot {
            assert(c@ =~= seq!['.']);
        }
    }
    assert(dotdot == (c@ == seq!['.', '.'])) by {
        if c@ == seq!['.', '.'] {
            assert(c@.len() == 2 && c@[0] == '.' && c@[1] == '.');
        }
        if dotdot {
            assert(c@ =~= seq!['.', '.']);
        }
    }
    if drive {
        0
    } else if root {
        1
    } else if dot {
        2
    } else if dotdot {
        3
    } else {
        4
    }
}

fn component_less(platform: Platform, a: &Vec<char>, b: &Vec<char>) -> (r: bool)
    ensures
        r == component_lt(platform, a@, b@),
{
    let ra = component_rank_exec(platform, a);
    let rb = component_rank_exec(platform, b);
    ra < rb || (ra == rb && chars_less(a, b))
}

/// Whether the components `a` come strictly before the components `b`.
pub fn components_less(platform: Platform, a: &Vec<Vec<char>>, b: &Vec<Vec<char>>) -> (r: bool)
    ensures
        r == components_lt(platform, texts(a@), texts(b@)),
{
    let ghost lt = component_order(platform);
    let mut i: usize = 0;
    assert(texts(a@).skip(0) == texts(a@));
    assert(texts(b@).skip(0) == texts(b@));
    loop
        invariant
            i <= a.len(),
            i <= b.len(),
            lt == component_order(platform),
            lex_lt(texts(a@), texts(b@), lt) == lex_lt(
                texts(a@).skip(i as int),
                texts(b@).skip(i as int),
                lt,
            ),
        decreases a.len() - i,
    {
        let ghost sa = texts(a@).skip(i as int);
        let ghost sb = texts(b@).skip(i as int);
        if i == a.len() {
            assert(sa.len() == 0);
            assert(lex_lt(sa, sb, lt) == (sb.len() > 0));
            return i < b.len();
        }
        if i == b.len() {
            assert(sb.len() == 0);
            assert(!lex_lt(sa, sb, lt));
            return false;
        }
        assert(sa[0] == a@[i as int]@);
        assert(sb[0] == b@[i as int]@);
        if component_less(platform, &a[i], &b[i]) {
            assert(lt(sa[0], sb[0]));
            assert(lex_lt(sa, sb, lt));
            return true;
        }
        assert(!lt(sa[0], sb[0]));
        let ai = &a[i];
        let same = range_equals(ai, 0, ai.len(), &b[i]);
        assert(ai@.subrange(0, ai@.len() as int) == ai@);
        if !same {
            assert(!lex_lt(sa, sb, lt));
            return false;
        }
        assert(texts(a@).skip(i as int).drop_first() == texts(a@).skip(i + 1));
        assert(texts(b@).skip(i as int).drop_first() == texts(b@).skip(i + 1));
        i = i + 1;
    }
}

/// Whether `a` comes strictly before `b`, as `PathBuf`'s `Ord` says.
pub fn path_less(platform: Platform, a: &str, b: &str) -> (r: bool)
    ensures
        r == path_lt(platform, a@, b@),
{
    let va = chars_of(a);
    let vb = chars_of(b);
    let ca = key_components_of(platform, &va);
    let cb = key_components_of(platform, &vb);
    components_less(platform, &ca, &cb)
}


proof fn lemma_scan_tail(platform: Platform, verbatim: bool, s: Seq<char>, j: int, start: int, first: bool)
    requires
        0 <= start <= j <= s.len(),
        forall|t: int| start <= t < s.len() ==> !separates(platform, verbatim, #[trigger] s[t]),
    ensures
        scan_parts(platform, verbatim, s, j, start, first) == if keep_piece(s.subrange(start, s.len() as int), first || verbatim) {
            seq![s.subrange(start, s.len() as int)]
        } else {
            Seq::<Seq<char>>::empty()
        },
    decreases s.len() - j,
{
    if j < s.len() {
        lemma_scan_tail(platform, verbatim, s, j + 1, start, first);
    }
}

proof fn lemma_scan_ends_with(platform: Platform, verbatim: bool, s: Seq<char>, idx: int, i: int, start: int, first: bool)
    requires
        1 <= idx < s.len(),
        0 <= start <= i <= idx - 1,
        separates(platform, verbatim, s[idx - 1]),
        forall|t: int| idx <= t < s.len() ==> !separates(platform, verbatim, #[trigger] s[t]),
        keep_piece(s.subrange(idx, s.len() as int), false),
    ensures
        scan_parts(platform, verbatim, s, i, start, first).len() > 0,
        scan_parts(platform, verbatim, s, i, start, first).last() == s.subrange(idx, s.len() as int),
    decreases idx - i,
{
    if i == idx - 1 {
        lemma_scan_tail(platform, verbatim, s, idx, idx, false);
    } else if separates(platform, verbatim, s[i]) {
        lemma_scan_ends_with(platform, verbatim, s, idx, i + 1, i + 1, false);
    } else {
        lemma_scan_ends_with(platform, verbatim, s, idx, i + 1, start, first);
    }
}

/// The file name of a name joined onto a directory is that name: for a non-empty name
/// without separators that is not `.`, `..` or a drive prefix, joined onto any directory
/// (on Windows, one that does not start with two separators, as share, device and verbatim
/// paths do).
pub proof fn lemma_join_file_name(platform: Platform, d: Seq<char>, n: Seq<char>)
    requires
        n.len() > 0,
        forall|k: int| 0 <= k < n.len() ==> !is_separator(platform, #[trigger] n[k]),
        n != seq!['.'],
        n != seq!['.', '.'],
        !has_drive_prefix(platform, n),
        !(platform == Platform::Windows && d.len() >= 2 && is_separator(platform, d[0]) && is_separator(
            platform,
            d[1],
        )),
    ensures
        file_name(platform, join_path(platform, d, n)) == Some(n),
{
    let full = join_path(platform, d, n);
    assert(prefix_len(platform, n) == 0);
    assert(!is_verbatim(platform, d));
    let k = prefix_len(platform, full);
    let verbatim = is_verbatim(platform, full);
    // the prefix of the joined path is the directory's drive, if it has one
    if has_drive_prefix(platform, d) {
        assert(full[0] == d[0] && full[1] == d[1]);
        assert(k == 2);
    } else {
        if d.len() >= 2 {
            assert(full[0] == d[0] && full[1] == d[1]);
        } else if d.len() == 1 {
            assert(full[0] == d[0]);
        }
        assert(k == 0);
    }
    assert(!verbatim);
    let rest = full.skip(k);
    let idx = rest.len() - n.len();
    assert(rest.subrange(idx, rest.len() as int) =~= n);
    assert forall|t: int| idx <= t < rest.len() implies !separates(platform, verbatim, #[trigger] rest[t]) by {
        assert(rest[t] == n[t - idx]);
    }
    let rooted = has_root(platform, full);
    let scanned = scan_parts(platform, verbatim, rest, 0, 0, !rooted);
    if idx == 0 {
        lemma_scan_tail(platform, verbatim, rest, 0, 0, !rooted);
        assert(scanned == seq![n]);
    } else {
        assert(separates(platform, verbatim, rest[idx - 1]));
        lemma_scan_ends_with(platform, verbatim, rest, idx, 0, 0, !rooted);
    }
    let cs = components(platform, full);
    assert(cs.last() == n);
    assert(cs.len() > 0);
    if cs.len() == 1 {
        assert(cs[0] == n);
    }
}

/// A file in any directory has a dictionary file name exactly when its own name ends with
/// `.dict.yaml`, whatever comes before (more dots included).
pub proof fn lemma_dictionary_file_names(platform: Platform, d: Seq<char>, n: Seq<char>)
    requires
        n.len() > 0,
        forall|k: int| 0 <= k < n.len() ==> !is_separator(platform, #[trigger] n[k]),
        n != seq!['.'],
        n != seq!['.', '.'],
        !has_drive_prefix(platform, n),
        !(platform == Platform::Windows && d.len() >= 2 && is_separator(platform, d[0]) && is_separator(
            platform,
            d[1],
        )),
    ensures
        has_dictionary_file_name(platform, join_path(platform, d, n)) <==> ends_with(
            n,
            seq!['.', 'd', 'i', 'c', 't', '.', 'y', 'a', 'm', 'l'],
        ),
{
    lemma_join_file_name(platform, d, n);
}

} // verus!
