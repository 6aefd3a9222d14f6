//! Finding and running the Rime deployer of the current platform.
use vstd::prelude::*;
use crate::text::{chars_of, string_of, copy_string, same_text, starts_with, vec_starts_with};
use crate::paths::{join, join_path, parent, parent_path, file_name, file_name_of, string_texts};
use crate::order::{numbers_lt, numbers_less, u32_order, lemma_u32_order, lemma_lex_order, lex_order, lemma_lex_asymmetric, lemma_lex_transitive, lemma_lex_total};

verus! {

/// The desktop platform the application runs on.
#[derive(Clone, Copy, Debug, PartialEq, Eq, Structural)]
pub enum Platform {
    Windows,
    Macos,
    Linux,
    Unsupported,
}

/// What the deployer search starts from.
pub struct DeploymentContext {
    pub platform: Platform,
    pub program_roots: Vec<String>,
    pub path_entries: Vec<String>,
    pub user_data_dir: String,
    pub macos_candidates: Vec<String>,
}

/// A deployer that the user chose: the program, its arguments and its working directory.
pub struct DeploymentConfig {
    pub executable: String,
    pub arguments: Vec<String>,
    pub working_directory: Option<String>,
}

/// A deployer found on this machine or configured by the user.
pub struct DeploymentCandidate {
    pub executable: String,
    pub arguments: Vec<String>,
    pub working_directory: Option<String>,
    pub label: String,
    pub experimental: bool,
    pub custom: bool,
}

/// What the user interface shows of the deployer.
pub struct DeploymentState {
    pub available: bool,
    pub label: String,
    pub executable: Option<String>,
    pub arguments: Vec<String>,
    pub working_directory: Option<String>,
    pub experimental: bool,
    pub custom: bool,
}

/// The mathematical value of a deployer candidate.
pub struct CandidateView {
    pub executable: Seq<char>,
    pub arguments: Seq<Seq<char>>,
    pub working_directory: Option<Seq<char>>,
    pub label: Seq<char>,
    pub experimental: bool,
    pub custom: bool,
}

/// The text of an optional string.
pub open spec fn option_text(o: Option<String>) -> Option<Seq<char>> {
    match o {
        Some(s) => Some(s@),
        None => None,
    }
}

impl View for DeploymentCandidate {
    type V = CandidateView;

    open spec fn view(&self) -> CandidateView {
        CandidateView {
            executable: self.executable@,
            arguments: string_texts(self.arguments@),
            working_directory: option_text(self.working_directory),
            label: self.label@,
            experimental: self.experimental,
            custom: self.custom,
        }
    }
}

/// A copy of a list of strings.
pub fn copy_strings(v: &Vec<String>) -> (r: Vec<String>)
    ensures
        string_texts(r@) == string_texts(v@),
{
    let mut out: Vec<String> = Vec::new();
    let mut i: usize = 0;
    while i < v.len()
        invariant
            i <= v.len(),
            string_texts(out@) == string_texts(v@).take(i as int),
        decreases v.len() - i,
    {
        let ghost before = string_texts(out@);
        let c = copy_string(&v[i]);
        out.push(c);
        assert(string_texts(out@) =~= before.push(v@[i as int]@));
        assert(string_texts(out@) =~= string_texts(v@).take(i + 1));
        i = i + 1;
    }
    assert(string_texts(v@).take(v.len() as int) =~= string_texts(v@));
    out
}

/// A copy of an optional string.
pub fn copy_option(o: &Option<String>) -> (r: Option<String>)
    ensures
        option_text(r) == option_text(*o),
{
    match o {
        Some(s) => Some(copy_string(s)),
        None => None,
    }
}

impl DeploymentCandidate {
    /// The deployer that the user configured, labelled `custom`.
    pub fn from_custom(config: DeploymentConfig) -> (r: Self)
        ensures
            r.executable == config.executable,
            r.arguments == config.arguments,
            r.working_directory == config.working_directory,
            r.label@ == "custom"@,
            !r.experimental,
            r.custom,
    {
        DeploymentCandidate {
            executable: config.executable,
            arguments: config.arguments,
            working_directory: config.working_directory,
            label: String::from_str("custom"),
            experimental: false,
            custom: true,
        }
    }

    /// What the user interface shows of this deployer; it is available when its executable
    /// is a file, which the caller has looked up.
    pub fn state(&self, executable_is_file: bool) -> (r: DeploymentState)
        ensures
            r.available == executable_is_file,
            r.label@ == self.label@,
            option_text(r.executable) == Some(self.executable@),
            string_texts(r.arguments@) == string_texts(self.arguments@),
            option_text(r.working_directory) == option_text(self.working_directory),
            r.experimental == self.experimental,
            r.custom == self.custom,
    {
        DeploymentState {
            available: executable_is_file,
            label: copy_string(&self.label),
            executable: Some(copy_string(&self.executable)),
            arguments: copy_strings(&self.arguments),
            working_directory: copy_option(&self.working_directory),
            experimental: self.experimental,
            custom: self.custom,
        }
    }
}

/// What the user interface shows when no deployer is known.
pub fn unavailable_state() -> (r: DeploymentState)
    ensures
        !r.available,
        r.label@ == "unavailable"@,
        r.executable is None,
        r.arguments@.len() == 0,
        r.working_directory is None,
        !r.experimental,
        !r.custom,
{
    DeploymentState {
        available: false,
        label: String::from_str("unavailable"),
        executable: None,
        arguments: Vec::new(),
        working_directory: None,
        experimental: false,
        custom: false,
    }
}

/// What the user interface shows of `candidate`: its state when there is one (available when
/// its executable is a file, which the caller looked up), else the unavailable state.
pub fn deployment_state(candidate: &Option<DeploymentCandidate>, executable_is_file: bool) -> (r: DeploymentState)
    ensures
        match candidate {
            Some(c) => {
                &&& r.available == executable_is_file
                &&& r.label@ == c.label@
                &&& option_text(r.executable) == Some(c.executable@)
                &&& string_texts(r.arguments@) == string_texts(c.arguments@)
                &&& option_text(r.working_directory) == option_text(c.working_directory)
                &&& r.experimental == c.experimental
                &&& r.custom == c.custom
            },
            None => {
                &&& !r.available
                &&& r.label@ == "unavailable"@
                &&& r.executable is None
                &&& r.arguments@.len() == 0
                &&& r.working_directory is None
                &&& !r.experimental
                &&& !r.custom
            },
        },
{
    match candidate {
        Some(c) => c.state(executable_is_file),
        None => unavailable_state(),
    }
}

/// Where Squirrel is looked for: the system's and then the user's `Input Methods`
/// directory, the user's under the home directory `home`.
pub fn squirrel_candidates(platform: Platform, home: &str) -> (r: Vec<String>)
    ensures
        string_texts(r@) == seq![
            "/Library/Input Methods/Squirrel.app/Contents/MacOS/Squirrel"@,
            join_path(platform, home@, "Library/Input Methods/Squirrel.app/Contents/MacOS/Squirrel"@),
        ],
{
    let mut out: Vec<String> = Vec::new();
    out.push(String::from_str("/Library/Input Methods/Squirrel.app/Contents/MacOS/Squirrel"));
    out.push(join(platform, home, "Library/Input Methods/Squirrel.app/Contents/MacOS/Squirrel"));
    assert(string_texts(out@) =~= seq![
        "/Library/Input Methods/Squirrel.app/Contents/MacOS/Squirrel"@,
        join_path(platform, home@, "Library/Input Methods/Squirrel.app/Contents/MacOS/Squirrel"@),
    ]);
    out
}

/// The platform that an operating system name (`std::env::consts::OS`) stands for.
pub open spec fn platform_of(os: Seq<char>) -> Platform {
    if os == "windows"@ {
        Platform::Windows
    } else if os == "macos"@ {
        Platform::Macos
    } else if os == "linux"@ {
        Platform::Linux
    } else {
        Platform::Unsupported
    }
}

/// The platform that the operating system `os` stands for: `windows`, `macos` and `linux` are
/// supported, every other system is not.
pub fn current_platform(os: &str) -> (r: Platform)
    ensures
        r == platform_of(os@),
{
    if same_text(os, "windows") {
        Platform::Windows
    } else if same_text(os, "macos") {
        Platform::Macos
    } else if same_text(os, "linux") {
        Platform::Linux
    } else {
        Platform::Unsupported
    }
}

/// Whether `c` is an ASCII digit.
pub open spec fn is_ascii_digit(c: char) -> bool {
    '0' <= c && c <= '9'
}

/// The number that a string of ASCII digits stands for.
pub open spec fn decimal_value(digits: Seq<char>) -> nat
    decreases digits.len(),
{
    if digits.len() == 0 {
        0
    } else {
        decimal_value(digits.drop_last()) * 10 + ((digits.last() as int - '0' as int) as nat)
    }
}

/// The number of one run of digits, when it is not empty and fits in a `u32`.
pub open spec fn run_number(run: Seq<char>) -> Seq<u32> {
    if run.len() > 0 && decimal_value(run) <= u32::MAX {
        seq![decimal_value(run) as u32]
    } else {
        seq![]
    }
}

/// The numbers of the digit runs of `s` from position `i` on, the current run having started
/// at `start`.
pub open spec fn number_scan(s: Seq<char>, i: int, start: int) -> Seq<u32>
    decreases s.len() - i,
{
    if i >= s.len() {
        run_number(s.subrange(start, s.len() as int))
    } else if !is_ascii_digit(s[i]) {
        run_number(s.subrange(start, i)) + number_scan(s, i + 1, i + 1)
    } else {
        number_scan(s, i + 1, start)
    }
}

/// The version numbers in a name such as `weasel-0.17.4`: its runs of ASCII digits that
/// fit in a `u32`, in order.
pub open spec fn version_numbers_of(name: Seq<char>) -> Seq<u32> {
    number_scan(name, 0, 0)
}

/// The version numbers in `name`: each run of ASCII digits, read as a `u32`; runs too large
/// for a `u32` are left out.
pub fn version_numbers(name: &str) -> (r: Vec<u32>)
    ensures
        r@ == version_numbers_of(name@),
{
    let v = chars_of(name);
    let ghost s = v@;
    let mut out: Vec<u32> = Vec::new();
    let mut i: usize = 0;
    let mut start: usize = 0;
    let mut value: u64 = 0;
    let mut overflow = false;
    assert(s.subrange(0, 0) =~= Seq::<char>::empty());
    while i < v.len()
        invariant
            start <= i <= v.len(),
            s == v@,
            out@ + number_scan(s, i as int, start as int) == version_numbers_of(s),
            !overflow ==> value == decimal_value(s.subrange(start as int, i as int)) && value
                <= u32::MAX,
            overflow ==> decimal_value(s.subrange(start as int, i as int)) > u32::MAX,
        decreases v.len() - i,
    {
        let c = v[i];
        if '0' <= c && c <= '9' {
            let ghost run = s.subrange(start as int, i + 1);
            assert(run.drop_last() =~= s.subrange(start as int, i as int));
            assert(run.last() == c);
            let d = (c as u32 - '0' as u32) as u64;
            assert(decimal_value(run) == decimal_value(run.drop_last()) * 10 + d);
            if !overflow {
                let next = value * 10 + d;
                if next > 0xffff_ffff {
                    overflow = true;
                } else {
                    value = next;
                }
            }
        } else {
            let ghost piece = s.subrange(start as int, i as int);
            let ghost before = out@;
            if !overflow && i > start {
                out.push(value as u32);
                assert(run_number(piece) =~= seq![value as u32]);
            } else {
                assert(run_number(piece) =~= Seq::<u32>::empty());
            }
            assert(out@ =~= before + run_number(piece));
            assert(out@ + number_scan(s, i + 1, i + 1) =~= before + (run_number(piece)
                + number_scan(s, i + 1, i + 1)));
            start = i + 1;
            value = 0;
            overflow = false;
            assert(s.subrange(start as int, start as int) =~= Seq::<char>::empty());
        }
        i = i + 1;
    }
    let ghost piece = s.subrange(start as int, i as int);
    let ghost before = out@;
    if !overflow && i > start {
        out.push(value as u32);
        assert(run_number(piece) =~= seq![value as u32]);
    } else {
        assert(run_number(piece) =~= Seq::<u32>::empty());
    }
    assert(out@ =~= before + run_number(piece));
    out
}

/// `n` written in decimal, with a leading `-` when it is negative.
pub open spec fn decimal_text(n: int) -> Seq<char>
    decreases (if n < 0 { -n + 1 } else { n }),
{
    if n < 0 {
        seq!['-'] + decimal_text(-n)
    } else if n < 10 {
        seq![digit_char(n)]
    } else {
        decimal_text(n / 10).push(digit_char(n % 10))
    }
}

/// The ASCII digit for `d` in `0..10`.
pub open spec fn digit_char(d: int) -> char {
    (d + '0' as int) as char
}

fn digit_char_exec(d: u64) -> (r: char)
    requires
        d < 10,
    ensures
        r == digit_char(d as int),
{
    if d == 0 {
        '0'
    } else if d == 1 {
        '1'
    } else if d == 2 {
        '2'
    } else if d == 3 {
        '3'
    } else if d == 4 {
        '4'
    } else if d == 5 {
        '5'
    } else if d == 6 {
        '6'
    } else if d == 7 {
        '7'
    } else if d == 8 {
        '8'
    } else {
        '9'
    }
}

fn push_magnitude(m: u64, out: &mut Vec<char>)
    ensures
        final(out)@ == old(out)@ + decimal_text(m as int),
    decreases m,
{
    if m < 10 {
        out.push(digit_char_exec(m));
    } else {
        push_magnitude(m / 10, out);
        let ghost mid = out@;
        out.push(digit_char_exec(m % 10));
        assert(out@ =~= old(out)@ + decimal_text(m as int));
    }
}

/// `n` written in decimal, as `Display` for integers writes it.
pub fn decimal_string(n: i64) -> (r: String)
    requires
        n > i64::MIN,
    ensures
        r@ == decimal_text(n as int),
{
    let mut out: Vec<char> = Vec::new();
    if n < 0 {
        out.push('-');
        push_magnitude((-n) as u64, &mut out);
        assert(out@ =~= decimal_text(n as int));
    } else {
        push_magnitude(n as u64, &mut out);
        assert(out@ =~= decimal_text(n as int));
    }
    string_of(&out)
}


/// One directory that was read, with the names of its entries in the order they came.
pub struct DirectoryListing {
    pub directory: String,
    pub names: Vec<String>,
}

/// What the deployer search learned of the file system: the paths that are files, the
/// paths that are directories, and the directories that could be read.
pub struct FileFacts {
    pub files: Vec<String>,
    pub directories: Vec<String>,
    pub listings: Vec<DirectoryListing>,
}

/// Whether one of `v` holds the text `p`.
pub open spec fn holds_text(v: Seq<String>, p: Seq<char>) -> bool {
    exists|i: int| 0 <= i < v.len() && #[trigger] v[i]@ == p
}

/// Whether the facts say that `p` is a file.
pub open spec fn is_file_fact(facts: FileFacts, p: Seq<char>) -> bool {
    holds_text(facts.files@, p)
}

/// Whether the facts say that `p` is a directory.
pub open spec fn is_dir_fact(facts: FileFacts, p: Seq<char>) -> bool {
    holds_text(facts.directories@, p)
}

/// The names listed for `dir` by the first listing of it among `ls`, if any.
pub open spec fn listing_in(ls: Seq<DirectoryListing>, dir: Seq<char>) -> Option<Seq<String>>
    decreases ls.len(),
{
    if ls.len() == 0 {
        None
    } else if ls[0].directory@ == dir {
        Some(ls[0].names@)
    } else {
        listing_in(ls.drop_first(), dir)
    }
}

/// The names in `dir`, when the facts hold a listing of it.
pub open spec fn listing_of(facts: FileFacts, dir: Seq<char>) -> Option<Seq<String>> {
    listing_in(facts.listings@, dir)
}

/// Whether one of `v` holds the text of `p`.
pub fn contains_text(v: &Vec<String>, p: &str) -> (r: bool)
    ensures
        r == holds_text(v@, p@),
{
    let mut i: usize = 0;
    while i < v.len()
        invariant
            i <= v.len(),
            forall|k: int| 0 <= k < i ==> v@[k]@ != p@,
        decreases v.len() - i,
    {
        if same_text(v[i].as_str(), p) {
            return true;
        }
        i = i + 1;
    }
    false
}

/// The listing of `dir` among `ls`.
fn find_listing<'a>(ls: &'a Vec<DirectoryListing>, dir: &str) -> (r: Option<&'a Vec<String>>)
    ensures
        match r {
            Some(names) => listing_in(ls@, dir@) == Some(names@),
            None => listing_in(ls@, dir@) is None,
        },
{
    let mut i: usize = 0;
    assert(ls@.skip(0) =~= ls@);
    while i < ls.len()
        invariant
            i <= ls.len(),
            listing_in(ls@, dir@) == listing_in(ls@.skip(i as int), dir@),
        decreases ls.len() - i,
    {
        assert(ls@.skip(i as int)[0] == ls@[i as int]);
        if same_text(ls[i].directory.as_str(), dir) {
            return Some(&ls[i].names);
        }
        assert(ls@.skip(i as int).drop_first() =~= ls@.skip(i + 1));
        i = i + 1;
    }
    None
}

/// The first of `candidates` that the facts say is a file.
pub open spec fn first_file(candidates: Seq<String>, facts: FileFacts) -> Option<Seq<char>>
    decreases candidates.len(),
{
    if candidates.len() == 0 {
        None
    } else if is_file_fact(facts, candidates[0]@) {
        Some(candidates[0]@)
    } else {
        first_file(candidates.drop_first(), facts)
    }
}

/// The first `entry/name` among `entries` that the facts say is a file.
pub open spec fn first_in_path(platform: Platform, name: Seq<char>, entries: Seq<String>, facts: FileFacts) -> Option<
    Seq<char>,
>
    decreases entries.len(),
{
    if entries.len() == 0 {
        None
    } else if is_file_fact(facts, join_path(platform, entries[0]@, name)) {
        Some(join_path(platform, entries[0]@, name))
    } else {
        first_in_path(platform, name, entries.drop_first(), facts)
    }
}

/// The first `entry/name` among the search path `entries` that is a file.
pub fn find_in_path(platform: Platform, name: &str, entries: &Vec<String>, facts: &FileFacts) -> (r:
    Option<String>)
    ensures
        option_text(r) == first_in_path(platform, name@, entries@, *facts),
{
    let mut i: usize = 0;
    assert(entries@.skip(0) =~= entries@);
    while i < entries.len()
        invariant
            i <= entries.len(),
            first_in_path(platform, name@, entries@, *facts) == first_in_path(
                platform,
                name@,
                entries@.skip(i as int),
                *facts,
            ),
        decreases entries.len() - i,
    {
        assert(entries@.skip(i as int)[0] == entries@[i as int]);
        let path = join(platform, entries[i].as_str(), name);
        if contains_text(&facts.files, path.as_str()) {
            return Some(path);
        }
        assert(entries@.skip(i as int).drop_first() =~= entries@.skip(i + 1));
        i = i + 1;
    }
    None
}

/// The Squirrel deployer at `executable`: `Squirrel --reload`, run in its own directory.
pub open spec fn squirrel_candidate(platform: Platform, executable: Seq<char>) -> CandidateView {
    CandidateView {
        executable,
        arguments: seq!["--reload"@],
        working_directory: parent_path(platform, executable),
        label: "squirrel"@,
        experimental: false,
        custom: false,
    }
}

/// Where Rime's shared data lives on Linux.
pub open spec fn shared_data_dir() -> Seq<char> {
    "/usr/share/rime-data"@
}

/// The librime deployer at `executable`: `rime_deployer --build <user> <shared> <user>/build`,
/// run in the user directory, experimental.
pub open spec fn librime_candidate(platform: Platform, user: Seq<char>, executable: Seq<char>, facts: FileFacts) -> CandidateView {
    let shared = if is_dir_fact(facts, shared_data_dir()) {
        shared_data_dir()
    } else {
        user
    };
    CandidateView {
        executable,
        arguments: seq!["--build"@, user, shared, join_path(platform, user, "build"@)],
        working_directory: Some(user),
        label: "librime"@,
        experimental: true,
        custom: false,
    }
}

/// Whether `p` is a Weasel install directory: its name starts with `weasel-`.
pub open spec fn is_weasel_dir(platform: Platform, p: Seq<char>) -> bool {
    match file_name(platform, p) {
        Some(name) => starts_with(name, "weasel-"@),
        None => false,
    }
}

/// The Weasel install directories among the entries `names` of `dir`, in order.
pub open spec fn weasel_dirs_in(platform: Platform, dir: Seq<char>, names: Seq<String>) -> Seq<Seq<char>>
    decreases names.len(),
{
    if names.len() == 0 {
        seq![]
    } else {
        let p = join_path(platform, dir, names[0]@);
        (if is_weasel_dir(platform, p) {
            seq![p]
        } else {
            seq![]
        }) + weasel_dirs_in(platform, dir, names.drop_first())
    }
}

/// The Weasel install directories under `<root>/Rime` of each of `roots`, in order.
pub open spec fn weasel_dirs(platform: Platform, roots: Seq<String>, facts: FileFacts) -> Seq<Seq<char>>
    decreases roots.len(),
{
    if roots.len() == 0 {
        seq![]
    } else {
        let rime = join_path(platform, roots[0]@, "Rime"@);
        (match listing_of(facts, rime) {
            Some(names) => weasel_dirs_in(platform, rime, names),
            None => seq![],
        }) + weasel_dirs(platform, roots.drop_first(), facts)
    }
}

/// The version of a Weasel install directory: the numbers in its name.
pub open spec fn weasel_version(platform: Platform, dir: Seq<char>) -> Seq<u32> {
    match file_name(platform, dir) {
        Some(name) => version_numbers_of(name),
        None => seq![],
    }
}

/// The Weasel deployer in `dir`.
pub open spec fn weasel_executable(platform: Platform, dir: Seq<char>) -> Seq<char> {
    join_path(platform, dir, "WeaselDeployer.exe"@)
}

/// Whether `dirs[i]` holds a Weasel deployer.
pub open spec fn has_weasel(platform: Platform, dirs: Seq<Seq<char>>, facts: FileFacts, i: int) -> bool {
    0 <= i < dirs.len() && is_file_fact(facts, weasel_executable(platform, dirs[i]))
}

/// Whether `dirs[i]` is the install that the search picks: it holds a deployer, and every
/// other install that holds one has a lower version, or the same version and comes earlier.
pub open spec fn is_latest_weasel(platform: Platform, dirs: Seq<Seq<char>>, facts: FileFacts, i: int) -> bool {
    &&& has_weasel(platform, dirs, facts, i)
    &&& forall|j: int|
        #![trigger has_weasel(platform, dirs, facts, j)]
        j != i && has_weasel(platform, dirs, facts, j) ==> numbers_lt(
            weasel_version(platform, dirs[j]),
            weasel_version(platform, dirs[i]),
        ) || (weasel_version(platform, dirs[j]) == weasel_version(platform, dirs[i]) && j < i)
}

/// The Weasel deployer in `dir`: `WeaselDeployer.exe /deploy`, run in `dir`.
pub open spec fn weasel_candidate(platform: Platform, dir: Seq<char>) -> CandidateView {
    CandidateView {
        executable: weasel_executable(platform, dir),
        arguments: seq!["/deploy"@],
        working_directory: Some(dir),
        label: "weasel"@,
        experimental: false,
        custom: false,
    }
}

/// The Weasel deployer that the search picks: the one in the install with the highest
/// version, the later-listed one among installs of equal version.
pub open spec fn weasel_choice(context: DeploymentContext, facts: FileFacts) -> Option<CandidateView> {
    let dirs = weasel_dirs(context.platform, context.program_roots@, facts);
    if exists|i: int| is_latest_weasel(context.platform, dirs, facts, i) {
        let i = choose|i: int| is_latest_weasel(context.platform, dirs, facts, i);
        Some(weasel_candidate(context.platform, dirs[i]))
    } else {
        None
    }
}

/// The deployer that the search finds for `context`, given what it learned of the file
/// system: on macOS the first Squirrel candidate that is a file; on Windows the latest
/// Weasel install; on Linux `rime_deployer` from the search path; elsewhere none.
pub open spec fn detected_deployer(context: DeploymentContext, facts: FileFacts) -> Option<CandidateView> {
    match context.platform {
        Platform::Macos => match first_file(context.macos_candidates@, facts) {
            Some(executable) => Some(squirrel_candidate(context.platform, executable)),
            None => None,
        },
        Platform::Windows => weasel_choice(context, facts),
        Platform::Linux => match first_in_path(
            context.platform,
            "rime_deployer"@,
            context.path_entries@,
            facts,
        ) {
            Some(executable) => Some(
                librime_candidate(context.platform, context.user_data_dir@, executable, facts),
            ),
            None => None,
        },
        Platform::Unsupported => None,
    }
}

/// At most one install is the one that the search picks.
pub proof fn lemma_latest_weasel_unique(platform: Platform, dirs: Seq<Seq<char>>, facts: FileFacts, i: int, j: int)
    requires
        is_latest_weasel(platform, dirs, facts, i),
        is_latest_weasel(platform, dirs, facts, j),
    ensures
        i == j,
{
    if i != j {
        lemma_u32_order();
        assert(has_weasel(platform, dirs, facts, j));
        assert(has_weasel(platform, dirs, facts, i));
        let vi = weasel_version(platform, dirs[i]);
        let vj = weasel_version(platform, dirs[j]);
        if numbers_lt(vj, vi) {
            lemma_lex_asymmetric(vj, vi, u32_order());
            lemma_lex_irreflexive_u32(vi);
        } else {
            lemma_lex_irreflexive_u32(vi);
        }
    }
}

proof fn lemma_lex_irreflexive_u32(a: Seq<u32>)
    ensures
        !numbers_lt(a, a),
{
    lemma_u32_order();
    crate::order::lemma_lex_irreflexive(a, u32_order());
}

/// The Weasel install directories under the program roots, in order.
fn weasel_dirs_exec(platform: Platform, roots: &Vec<String>, facts: &FileFacts) -> (r: Vec<String>)
    ensures
        string_texts(r@) == weasel_dirs(platform, roots@, *facts),
{
    let mut out: Vec<String> = Vec::new();
    let mut i: usize = 0;
    assert(roots@.skip(0) =~= roots@);
    proof {
        reveal_strlit("Rime");
        reveal_strlit("weasel-");
    }
    while i < roots.len()
        invariant
            i <= roots.len(),
            string_texts(out@) + weasel_dirs(platform, roots@.skip(i as int), *facts) == weasel_dirs(
                platform,
                roots@,
                *facts,
            ),
        decreases roots.len() - i,
    {
        let ghost rest = roots@.skip(i as int);
        assert(rest[0] == roots@[i as int]);
        assert(rest.drop_first() =~= roots@.skip(i + 1));
        let rime = join(platform, roots[i].as_str(), "Rime");
        let ghost start = string_texts(out@);
        match find_listing(&facts.listings, rime.as_str()) {
            Some(names) => {
                let mut k: usize = 0;
                assert(names@.skip(0) =~= names@);
                while k < names.len()
                    invariant
                        k <= names.len(),
                        string_texts(out@) + weasel_dirs_in(platform, rime@, names@.skip(k as int))
                            == start + weasel_dirs_in(platform, rime@, names@),
                    decreases names.len() - k,
                {
                    let ghost nrest = names@.skip(k as int);
                    assert(nrest[0] == names@[k as int]);
                    assert(nrest.drop_first() =~= names@.skip(k + 1));
                    let p = join(platform, rime.as_str(), names[k].as_str());
                    let ghost before = string_texts(out@);
                    let keep = match file_name_of(platform, p.as_str()) {
                        Some(n) => {
                            let nv = chars_of(n.as_str());
                            let prefix = chars_of("weasel-");
                            vec_starts_with(&nv, &prefix)
                        },
                        None => false,
                    };
                    if keep {
                        out.push(p);
                        assert(string_texts(out@) =~= before.push(names@[k as int]@).subrange(0, 0)
                            + before.push(join_path(platform, rime@, names@[k as int]@)));
                        assert(string_texts(out@) + weasel_dirs_in(
                            platform,
                            rime@,
                            names@.skip(k + 1),
                        ) =~= before + weasel_dirs_in(platform, rime@, nrest));
                    } else {
                        assert(before + weasel_dirs_in(platform, rime@, names@.skip(k + 1))
                            =~= before + weasel_dirs_in(platform, rime@, nrest));
                    }
                    k = k + 1;
                }
                assert(names@.skip(names@.len() as int) =~= Seq::<String>::empty());
                assert(string_texts(out@) =~= start + weasel_dirs_in(platform, rime@, names@));
                assert(string_texts(out@) + weasel_dirs(platform, roots@.skip(i + 1), *facts)
                    =~= start + weasel_dirs(platform, rest, *facts));
            },
            None => {
                assert(start + weasel_dirs(platform, roots@.skip(i + 1), *facts) =~= start
                    + weasel_dirs(platform, rest, *facts));
            },
        }
        i = i + 1;
    }
    assert(roots@.skip(roots@.len() as int) =~= Seq::<String>::empty());
    assert(string_texts(out@) + Seq::<Seq<char>>::empty() =~= string_texts(out@));
    out
}

/// The version numbers of a Weasel install directory.
fn weasel_version_exec(platform: Platform, dir: &str) -> (r: Vec<u32>)
    ensures
        r@ == weasel_version(platform, dir@),
{
    match file_name_of(platform, dir) {
        Some(name) => version_numbers(name.as_str()),
        None => Vec::new(),
    }
}

/// The Weasel deployer in the latest install directory under the program roots.
fn detect_weasel(context: &DeploymentContext, facts: &FileFacts) -> (r: Option<DeploymentCandidate>)
    ensures
        match r {
            Some(c) => weasel_choice(*context, *facts) == Some(c@),
            None => weasel_choice(*context, *facts) is None,
        },
{
    let platform = context.platform;
    let dirs = weasel_dirs_exec(platform, &context.program_roots, facts);
    let ghost ds = string_texts(dirs@);
    let mut best: Option<usize> = None;
    let mut best_version: Vec<u32> = Vec::new();
    let mut i: usize = 0;
    proof {
        lemma_u32_order();
        lemma_lex_order(u32_order());
        reveal_strlit("WeaselDeployer.exe");
    }
    while i < dirs.len()
        invariant
            i <= dirs.len(),
            ds == string_texts(dirs@),
            ds.len() == dirs@.len(),
            strict_total_order_u32_lists(),
            match best {
                Some(b) => {
                    &&& b < i
                    &&& has_weasel(platform, ds, *facts, b as int)
                    &&& best_version@ == weasel_version(platform, ds[b as int])
                    &&& forall|j: int|
                        #![trigger has_weasel(platform, ds, *facts, j)]
                        0 <= j < i && j != b && has_weasel(platform, ds, *facts, j) ==> numbers_lt(
                            weasel_version(platform, ds[j]),
                            best_version@,
                        ) || (weasel_version(platform, ds[j]) == best_version@ && j < b)
                },
                None => forall|j: int| 0 <= j < i ==> !#[trigger] has_weasel(platform, ds, *facts, j),
            },
        decreases dirs.len() - i,
    {
        let exe = join(platform, dirs[i].as_str(), "WeaselDeployer.exe");
        assert(exe@ == weasel_executable(platform, ds[i as int]));
        if contains_text(&facts.files, exe.as_str()) {
            let version = weasel_version_exec(platform, dirs[i].as_str());
            let better = match best {
                None => true,
                Some(_) => !numbers_less(&version, &best_version),
            };
            if better {
                proof {
                    if let Some(b) = best {
                        assert forall|j: int|
                            #![trigger has_weasel(platform, ds, *facts, j)]
                            0 <= j < i + 1 && j != i && has_weasel(platform, ds, *facts, j) implies numbers_lt(
                                weasel_version(platform, ds[j]),
                                version@,
                            ) || (weasel_version(platform, ds[j]) == version@ && j < i) by {
                            let vj = weasel_version(platform, ds[j]);
                            if j == b {
                                if best_version@ != version@ {
                                    crate::order::lemma_lex_total(best_version@, version@, u32_order());
                                }
                            } else {
                                if numbers_lt(vj, best_version@) {
                                    if best_version@ != version@ {
                                        crate::order::lemma_lex_total(best_version@, version@, u32_order());
                                        lemma_lex_transitive(vj, best_version@, version@, u32_order());
                                    }
                                } else {
                                    if best_version@ != version@ {
                                        crate::order::lemma_lex_total(best_version@, version@, u32_order());
                                    }
                                }
                            }
                        }
                    }
                }
                best = Some(i);
                best_version = version;
            } else {
                proof {
                    let b = best.unwrap();
                    assert forall|j: int|
                        #![trigger has_weasel(platform, ds, *facts, j)]
                        0 <= j < i + 1 && j != b && has_weasel(platform, ds, *facts, j) implies numbers_lt(
                            weasel_version(platform, ds[j]),
                            best_version@,
                        ) || (weasel_version(platform, ds[j]) == best_version@ && j < b) by {
                        if j == i {
                            assert(numbers_lt(version@, best_version@));
                        }
                    }
                }
            }
        }
        i = i + 1;
    }
    match best {
        None => {
            assert forall|k: int| !is_latest_weasel(platform, ds, *facts, k) by {
                if 0 <= k < ds.len() {
                    assert(!has_weasel(platform, ds, *facts, k));
                }
            }
            None
        },
        Some(b) => {
            assert(is_latest_weasel(platform, ds, *facts, b as int));
            proof {
                let c = choose|k: int| is_latest_weasel(platform, ds, *facts, k);
                lemma_latest_weasel_unique(platform, ds, *facts, b as int, c);
            }
            let dir = &dirs[b];
            let executable = join(platform, dir.as_str(), "WeaselDeployer.exe");
            let mut arguments: Vec<String> = Vec::new();
            arguments.push(String::from_str("/deploy"));
            proof {
                reveal_strlit("/deploy");
                reveal_strlit("weasel");
            }
            let c = DeploymentCandidate {
                executable,
                arguments,
                working_directory: Some(copy_string(dir)),
                label: String::from_str("weasel"),
                experimental: false,
                custom: false,
            };
            assert(c@.arguments =~= seq!["/deploy"@]);
            Some(c)
        },
    }
}

/// The order of `u32` lists is a strict total order.
pub open spec fn strict_total_order_u32_lists() -> bool {
    crate::order::strict_total_order(lex_order(u32_order()))
}

/// Finds the deployer of the context's platform, given what was learned of the file system:
/// on macOS the first Squirrel candidate that is a file, run as `Squirrel --reload` in its
/// directory; on Windows `WeaselDeployer.exe /deploy` from the latest Weasel install under
/// the program roots; on Linux `rime_deployer --build ...` from the search path, marked
/// experimental; on other platforms none.
pub fn detect_deployer(context: &DeploymentContext, facts: &FileFacts) -> (r: Option<DeploymentCandidate>)
    ensures
        match r {
            Some(c) => detected_deployer(*context, *facts) == Some(c@),
            None => detected_deployer(*context, *facts) is None,
        },
{
    let platform = context.platform;
    match platform {
        Platform::Macos => {
            let mut i: usize = 0;
            let cands = &context.macos_candidates;
            assert(cands@.skip(0) =~= cands@);
            while i < cands.len()
                invariant
                    i <= cands.len(),
                    platform == context.platform,
                    platform == Platform::Macos,
                    cands == &context.macos_candidates,
                    first_file(cands@, *facts) == first_file(cands@.skip(i as int), *facts),
                decreases cands.len() - i,
            {
                assert(cands@.skip(i as int)[0] == cands@[i as int]);
                if contains_text(&facts.files, cands[i].as_str()) {
                    let executable = copy_string(&cands[i]);
                    let working_directory = parent(platform, executable.as_str());
                    assert(option_text(working_directory) == parent_path(platform, executable@));
                    assert(first_file(cands@, *facts) == Some(executable@));
                    let mut arguments: Vec<String> = Vec::new();
                    arguments.push(String::from_str("--reload"));
                    proof {
                        reveal_strlit("--reload");
                        reveal_strlit("squirrel");
                    }
                    let c = DeploymentCandidate {
                        executable,
                        arguments,
                        working_directory,
                        label: String::from_str("squirrel"),
                        experimental: false,
                        custom: false,
                    };
                    assert(c@.arguments =~= seq!["--reload"@]);
                    assert(c@.label == "squirrel"@);
                    assert(c@.working_directory == parent_path(platform, c.executable@));
                    assert(c@ == squirrel_candidate(platform, c.executable@));
                    return Some(c);
                }
                assert(cands@.skip(i as int).drop_first() =~= cands@.skip(i + 1));
                i = i + 1;
            }
            None
        },
        Platform::Windows => detect_weasel(context, facts),
        Platform::Linux => {
            match find_in_path(platform, "rime_deployer", &context.path_entries, facts) {
                None => None,
                Some(executable) => {
                    let user = &context.user_data_dir;
                    let shared = if contains_text(&facts.directories, "/usr/share/rime-data") {
                        String::from_str("/usr/share/rime-data")
                    } else {
                        copy_string(user)
                    };
                    let mut arguments: Vec<String> = Vec::new();
                    arguments.push(String::from_str("--build"));
                    arguments.push(copy_string(user));
                    arguments.push(shared);
                    arguments.push(join(platform, user.as_str(), "build"));
                    proof {
                        reveal_strlit("--build");
                        reveal_strlit("librime");
                        reveal_strlit("/usr/share/rime-data");
                    }
                    let c = DeploymentCandidate {
                        executable,
                        arguments,
                        working_directory: Some(copy_string(user)),
                        label: String::from_str("librime"),
                        experimental: true,
                        custom: false,
                    };
                    assert(c@.arguments =~= librime_candidate(platform, user@, c.executable@, *facts).arguments);
                    Some(c)
                },
            }
        },
        Platform::Unsupported => None,
    }
}


/// The file-system questions that the deployer search asks: which directories to list,
/// which paths must be files and which directories.
pub struct DeployerQueries {
    pub listings: Vec<String>,
    pub files: Vec<String>,
    pub directories: Vec<String>,
}

/// `dirs` each joined with `name`.
pub open spec fn joined_all(platform: Platform, dirs: Seq<Seq<char>>, name: Seq<char>) -> Seq<Seq<char>> {
    dirs.map_values(|d: Seq<char>| join_path(platform, d, name))
}

/// The paths that the deployer search lists, and those whose kind it reads, given the
/// listings learned so far: on Windows the `Rime` directory of each program root, and the
/// `WeaselDeployer.exe` of each Weasel install found in those listings; on macOS the Squirrel
/// candidates; on Linux `rime_deployer` in each search-path entry and the shared data
/// directory.
pub open spec fn queries_hold(context: DeploymentContext, facts: FileFacts, q: DeployerQueries) -> bool {
    let platform = context.platform;
    match platform {
        Platform::Macos => {
            &&& q.listings@.len() == 0
            &&& string_texts(q.files@) == string_texts(context.macos_candidates@)
            &&& q.directories@.len() == 0
        },
        Platform::Windows => {
            &&& string_texts(q.listings@) == joined_all(platform, string_texts(context.program_roots@), "Rime"@)
            &&& string_texts(q.files@) == joined_all(
                platform,
                weasel_dirs(platform, context.program_roots@, facts),
                "WeaselDeployer.exe"@,
            )
            &&& q.directories@.len() == 0
        },
        Platform::Linux => {
            &&& q.listings@.len() == 0
            &&& string_texts(q.files@) == joined_all(platform, string_texts(context.path_entries@), "rime_deployer"@)
            &&& string_texts(q.directories@) == seq![shared_data_dir()]
        },
        Platform::Unsupported => {
            &&& q.listings@.len() == 0
            &&& q.files@.len() == 0
            &&& q.directories@.len() == 0
        },
    }
}

/// Whether two fact sets give the same answers to the questions `q`.
pub open spec fn agree_on(q: DeployerQueries, f1: FileFacts, f2: FileFacts) -> bool {
    &&& forall|i: int| 0 <= i < q.listings@.len() ==> listing_of(f1, #[trigger] q.listings@[i]@) == listing_of(f2, q.listings@[i]@)
    &&& forall|i: int| 0 <= i < q.files@.len() ==> is_file_fact(f1, #[trigger] q.files@[i]@) == is_file_fact(f2, q.files@[i]@)
    &&& forall|i: int| 0 <= i < q.directories@.len() ==> is_dir_fact(f1, #[trigger] q.directories@[i]@) == is_dir_fact(f2, q.directories@[i]@)
}

proof fn lemma_first_file_agree(cands: Seq<String>, f1: FileFacts, f2: FileFacts)
    requires
        forall|i: int| 0 <= i < cands.len() ==> is_file_fact(f1, #[trigger] cands[i]@) == is_file_fact(f2, cands[i]@),
    ensures
        first_file(cands, f1) == first_file(cands, f2),
    decreases cands.len(),
{
    if cands.len() > 0 {
        assert(is_file_fact(f1, cands[0]@) == is_file_fact(f2, cands[0]@));
        assert forall|i: int| 0 <= i < cands.drop_first().len() implies is_file_fact(f1, #[trigger] cands.drop_first()[i]@) == is_file_fact(f2, cands.drop_first()[i]@) by {
            assert(cands.drop_first()[i] == cands[i + 1]);
        }
        lemma_first_file_agree(cands.drop_first(), f1, f2);
    }
}

proof fn lemma_first_in_path_agree(platform: Platform, name: Seq<char>, entries: Seq<String>, f1: FileFacts, f2: FileFacts)
    requires
        forall|i: int| 0 <= i < entries.len() ==> is_file_fact(f1, join_path(platform, #[trigger] entries[i]@, name)) == is_file_fact(f2, join_path(platform, entries[i]@, name)),
    ensures
        first_in_path(platform, name, entries, f1) == first_in_path(platform, name, entries, f2),
    decreases entries.len(),
{
    if entries.len() > 0 {
        assert(is_file_fact(f1, join_path(platform, entries[0]@, name)) == is_file_fact(f2, join_path(platform, entries[0]@, name)));
        assert forall|i: int| 0 <= i < entries.drop_first().len() implies is_file_fact(f1, join_path(platform, #[trigger] entries.drop_first()[i]@, name)) == is_file_fact(f2, join_path(platform, entries.drop_first()[i]@, name)) by {
            assert(entries.drop_first()[i] == entries[i + 1]);
        }
        lemma_first_in_path_agree(platform, name, entries.drop_first(), f1, f2);
    }
}

proof fn lemma_weasel_dirs_agree(platform: Platform, roots: Seq<String>, f1: FileFacts, f2: FileFacts)
    requires
        forall|i: int| 0 <= i < roots.len() ==> listing_of(f1, join_path(platform, #[trigger] roots[i]@, "Rime"@)) == listing_of(f2, join_path(platform, roots[i]@, "Rime"@)),
    ensures
        weasel_dirs(platform, roots, f1) == weasel_dirs(platform, roots, f2),
    decreases roots.len(),
{
    if roots.len() > 0 {
        assert(listing_of(f1, join_path(platform, roots[0]@, "Rime"@)) == listing_of(f2, join_path(platform, roots[0]@, "Rime"@)));
        assert forall|i: int| 0 <= i < roots.drop_first().len() implies listing_of(f1, join_path(platform, #[trigger] roots.drop_first()[i]@, "Rime"@)) == listing_of(f2, join_path(platform, roots.drop_first()[i]@, "Rime"@)) by {
            assert(roots.drop_first()[i] == roots[i + 1]);
        }
        lemma_weasel_dirs_agree(platform, roots.drop_first(), f1, f2);
    }
}

proof fn lemma_latest_weasel_agree(platform: Platform, dirs: Seq<Seq<char>>, f1: FileFacts, f2: FileFacts)
    requires
        forall|j: int| #[trigger] has_weasel(platform, dirs, f1, j) == has_weasel(platform, dirs, f2, j),
    ensures
        forall|i: int| #[trigger] is_latest_weasel(platform, dirs, f1, i) == is_latest_weasel(platform, dirs, f2, i),
{
    assert forall|i: int| #[trigger] is_latest_weasel(platform, dirs, f1, i) implies is_latest_weasel(platform, dirs, f2, i) by {
        assert forall|j: int| #![trigger has_weasel(platform, dirs, f2, j)] j != i && has_weasel(platform, dirs, f2, j) implies numbers_lt(
            weasel_version(platform, dirs[j]),
            weasel_version(platform, dirs[i]),
        ) || (weasel_version(platform, dirs[j]) == weasel_version(platform, dirs[i]) && j < i) by {
            assert(has_weasel(platform, dirs, f1, j));
        }
        assert(has_weasel(platform, dirs, f1, i));
    }
    assert forall|i: int| #[trigger] is_latest_weasel(platform, dirs, f2, i) implies is_latest_weasel(platform, dirs, f1, i) by {
        assert forall|j: int| #![trigger has_weasel(platform, dirs, f1, j)] j != i && has_weasel(platform, dirs, f1, j) implies numbers_lt(
            weasel_version(platform, dirs[j]),
            weasel_version(platform, dirs[i]),
        ) || (weasel_version(platform, dirs[j]) == weasel_version(platform, dirs[i]) && j < i) by {
            assert(has_weasel(platform, dirs, f2, j));
        }
        assert(has_weasel(platform, dirs, f2, i));
    }
}

/// The search reads the file system only through its questions: when the questions are
/// asked with the listings of `f1`, any `f2` that answers them as `f1` does leads the
/// search to the same deployer.
pub proof fn lemma_detection_reads_only_queries(context: DeploymentContext, f1: FileFacts, f2: FileFacts, q: DeployerQueries)
    requires
        queries_hold(context, f1, q),
        agree_on(q, f1, f2),
    ensures
        detected_deployer(context, f1) == detected_deployer(context, f2),
{
    let platform = context.platform;
    match platform {
        Platform::Macos => {
            assert forall|i: int| 0 <= i < context.macos_candidates@.len() implies is_file_fact(f1, #[trigger] context.macos_candidates@[i]@) == is_file_fact(f2, context.macos_candidates@[i]@) by {
                assert(string_texts(q.files@).len() == q.files@.len());
                assert(string_texts(q.files@)[i] == q.files@[i]@);
                assert(string_texts(context.macos_candidates@)[i] == context.macos_candidates@[i]@);
            }
            lemma_first_file_agree(context.macos_candidates@, f1, f2);
        },
        Platform::Linux => {
            assert forall|i: int| 0 <= i < context.path_entries@.len() implies is_file_fact(f1, join_path(platform, #[trigger] context.path_entries@[i]@, "rime_deployer"@)) == is_file_fact(f2, join_path(platform, context.path_entries@[i]@, "rime_deployer"@)) by {
                assert(string_texts(q.files@).len() == q.files@.len());
                assert(string_texts(q.files@)[i] == q.files@[i]@);
                assert(string_texts(context.path_entries@)[i] == context.path_entries@[i]@);
                assert(joined_all(platform, string_texts(context.path_entries@), "rime_deployer"@)[i] == join_path(platform, context.path_entries@[i]@, "rime_deployer"@));
            }
            lemma_first_in_path_agree(platform, "rime_deployer"@, context.path_entries@, f1, f2);
            assert(string_texts(q.directories@).len() == q.directories@.len());
            assert(string_texts(q.directories@)[0] == q.directories@[0]@);
            assert(is_dir_fact(f1, q.directories@[0]@) == is_dir_fact(f2, q.directories@[0]@));
        },
        Platform::Windows => {
            let roots = context.program_roots@;
            assert forall|i: int| 0 <= i < roots.len() implies listing_of(f1, join_path(platform, #[trigger] roots[i]@, "Rime"@)) == listing_of(f2, join_path(platform, roots[i]@, "Rime"@)) by {
                assert(string_texts(q.listings@).len() == q.listings@.len());
                assert(string_texts(q.listings@)[i] == q.listings@[i]@);
                assert(string_texts(roots)[i] == roots[i]@);
                assert(joined_all(platform, string_texts(roots), "Rime"@)[i] == join_path(platform, roots[i]@, "Rime"@));
            }
            lemma_weasel_dirs_agree(platform, roots, f1, f2);
            let dirs = weasel_dirs(platform, roots, f1);
            assert forall|j: int| #[trigger] has_weasel(platform, dirs, f1, j) == has_weasel(platform, dirs, f2, j) by {
                if 0 <= j < dirs.len() {
                    assert(string_texts(q.files@).len() == q.files@.len());
                    assert(string_texts(q.files@)[j] == q.files@[j]@);
                    assert(joined_all(platform, dirs, "WeaselDeployer.exe"@)[j] == join_path(platform, dirs[j], "WeaselDeployer.exe"@));
                    assert(q.files@[j]@ == weasel_executable(platform, dirs[j]));
                }
            }
            lemma_latest_weasel_agree(platform, dirs, f1, f2);
            if exists|i: int| is_latest_weasel(platform, dirs, f1, i) {
                let i1 = choose|i: int| is_latest_weasel(platform, dirs, f1, i);
                let i2 = choose|i: int| is_latest_weasel(platform, dirs, f2, i);
                assert(is_latest_weasel(platform, dirs, f2, i1));
                lemma_latest_weasel_unique(platform, dirs, f2, i1, i2);
            }
            if exists|i: int| is_latest_weasel(platform, dirs, f2, i) {
                let i2 = choose|i: int| is_latest_weasel(platform, dirs, f2, i);
                assert(is_latest_weasel(platform, dirs, f1, i2));
            }
        },
        Platform::Unsupported => {},
    }
}

/// Each of `dirs` joined with `name`.
fn join_each(platform: Platform, dirs: &Vec<String>, name: &str) -> (r: Vec<String>)
    ensures
        string_texts(r@) == joined_all(platform, string_texts(dirs@), name@),
{
    let mut out: Vec<String> = Vec::new();
    let mut i: usize = 0;
    while i < dirs.len()
        invariant
            i <= dirs.len(),
            string_texts(out@) == joined_all(platform, string_texts(dirs@), name@).take(i as int),
        decreases dirs.len() - i,
    {
        let ghost before = string_texts(out@);
        let p = join(platform, dirs[i].as_str(), name);
        out.push(p);
        assert(string_texts(out@) =~= before.push(join_path(platform, dirs@[i as int]@, name@)));
        assert(string_texts(out@) =~= joined_all(platform, string_texts(dirs@), name@).take(i + 1));
        i = i + 1;
    }
    assert(joined_all(platform, string_texts(dirs@), name@).take(dirs@.len() as int) =~= joined_all(
        platform,
        string_texts(dirs@),
        name@,
    ));
    out
}

/// The file-system questions that the deployer search asks, given the listings learned so
/// far. Asking them once with no listings, reading the directories that come back, and
/// asking again with those listings yields every path whose kind the search reads.
pub fn deployer_queries(context: &DeploymentContext, facts: &FileFacts) -> (r: DeployerQueries)
    ensures
        queries_hold(*context, *facts, r),
{
    let platform = context.platform;
    proof {
        reveal_strlit("Rime");
        reveal_strlit("WeaselDeployer.exe");
        reveal_strlit("rime_deployer");
        reveal_strlit("/usr/share/rime-data");
    }
    match platform {
        Platform::Macos => DeployerQueries {
            listings: Vec::new(),
            files: copy_strings(&context.macos_candidates),
            directories: Vec::new(),
        },
        Platform::Windows => {
            let listings = join_each(platform, &context.program_roots, "Rime");
            let dirs = weasel_dirs_exec(platform, &context.program_roots, facts);
            let files = join_each(platform, &dirs, "WeaselDeployer.exe");
            DeployerQueries { listings, files, directories: Vec::new() }
        },
        Platform::Linux => {
            let files = join_each(platform, &context.path_entries, "rime_deployer");
            let mut directories: Vec<String> = Vec::new();
            directories.push(String::from_str("/usr/share/rime-data"));
            assert(string_texts(directories@) =~= seq![shared_data_dir()]);
            DeployerQueries { listings: Vec::new(), files, directories }
        },
        Platform::Unsupported => DeployerQueries {
            listings: Vec::new(),
            files: Vec::new(),
            directories: Vec::new(),
        },
    }
}


/// How long a deployer may run before it is stopped: 120 seconds, in nanoseconds.
pub const DEPLOY_TIMEOUT_NANOS: u64 = 120_000_000_000;

/// How long to sleep between two looks at a running deployer: 100 milliseconds, in
/// nanoseconds.
pub const POLL_INTERVAL_NANOS: u64 = 100_000_000;

/// Where a deployer run stands.
#[derive(Clone, Copy, Debug, PartialEq, Eq, Structural)]
pub enum DeployPhase {
    /// Waiting to learn whether the executable is a file.
    Checking,
    /// Waiting to learn whether the program started.
    Starting,
    /// The program runs.
    Running,
    /// The program is being killed after the timeout.
    Stopping,
    /// The run is over.
    Finished,
}

/// A deployer run: where it stands and how long the program may run.
#[derive(Clone, Copy, Debug)]
pub struct DeployRun {
    pub phase: DeployPhase,
    pub timeout_nanos: u64,
}

/// What the caller must do next for a deployer run.
pub enum DeployAction {
    /// Find out whether `path` is a file.
    CheckExecutable { path: String },
    /// Start `program` with `arguments` (no shell), in `working_directory` when there is one,
    /// with its output discarded.
    Start { program: String, arguments: Vec<String>, working_directory: Option<String> },
    /// Ask, without waiting, whether the program has exited.
    Poll,
    /// Sleep for `nanos` nanoseconds, then ask again whether the program has exited.
    Sleep { nanos: u64 },
    /// Kill the program and wait for it, ignoring errors of both.
    Stop,
    /// The run is over, with this result.
    Finish { result: Result<(), String> },
}

/// What the caller learned by doing the last action.
pub enum DeployEvent {
    /// Whether the executable is a file.
    Checked { is_file: bool },
    /// The program could not be started, with this message.
    StartFailed { message: String },
    /// The program started.
    Started,
    /// The program exited, successfully or not, with its exit code if it had one.
    Exited { success: bool, code: Option<i32> },
    /// The program still runs, this long after it was started.
    StillRunning { elapsed_nanos: u64 },
    /// Asking whether the program exited failed, with this message.
    PollFailed { message: String },
    /// The program was killed.
    Stopped,
}

/// Whether a run in `phase` expects `event`.
pub open spec fn expects(phase: DeployPhase, event: DeployEvent) -> bool {
    match phase {
        DeployPhase::Checking => event is Checked,
        DeployPhase::Starting => event is StartFailed || event is Started,
        DeployPhase::Running => event is Exited || event is StillRunning || event is PollFailed,
        DeployPhase::Stopping => event is Stopped,
        DeployPhase::Finished => false,
    }
}

/// The error for a deployer that exited with a failure: `deployer-exit-failed: <code>`, with
/// -1 when it had no exit code.
pub open spec fn exit_failure_text(code: Option<i32>) -> Seq<char> {
    "deployer-exit-failed: "@ + decimal_text(
        match code {
            Some(c) => c as int,
            None => -1,
        },
    )
}

/// Whether a run in `phase` expects `event`.
pub fn run_expects(phase: DeployPhase, event: &DeployEvent) -> (r: bool)
    ensures
        r == expects(phase, *event),
{
    match phase {
        DeployPhase::Checking => matches!(event, DeployEvent::Checked { .. }),
        DeployPhase::Starting => matches!(event, DeployEvent::StartFailed { .. } | DeployEvent::Started),
        DeployPhase::Running => matches!(
            event,
            DeployEvent::Exited { .. } | DeployEvent::StillRunning { .. } | DeployEvent::PollFailed { .. }
        ),
        DeployPhase::Stopping => matches!(event, DeployEvent::Stopped),
        DeployPhase::Finished => false,
    }
}

/// Starts a run of `candidate` that stops the program after `timeout_nanos`: the first
/// step is to check that its executable is a file.
pub fn run_deployer_with_timeout(candidate: &DeploymentCandidate, timeout_nanos: u64) -> (r: (DeployRun, DeployAction))
    ensures
        r.0.phase == DeployPhase::Checking,
        r.0.timeout_nanos == timeout_nanos,
        r.1 matches DeployAction::CheckExecutable { path } && path@ == candidate.executable@,
{
    (
        DeployRun { phase: DeployPhase::Checking, timeout_nanos },
        DeployAction::CheckExecutable { path: copy_string(&candidate.executable) },
    )
}

/// Starts a run of `candidate` with the standard timeout of 120 seconds.
pub fn run_deployer(candidate: &DeploymentCandidate) -> (r: (DeployRun, DeployAction))
    ensures
        r.0.phase == DeployPhase::Checking,
        r.0.timeout_nanos == DEPLOY_TIMEOUT_NANOS,
        r.1 matches DeployAction::CheckExecutable { path } && path@ == candidate.executable@,
{
    run_deployer_with_timeout(candidate, DEPLOY_TIMEOUT_NANOS)
}

/// The next step of a run of `candidate`, given what the last action found out.
///
/// A deployer that is not a file fails with `deployer-not-found`; one that does not start
/// fails with `deployer-start-failed: <message>`; one that exits successfully finishes the
/// run with `Ok`; one that exits otherwise fails with `deployer-exit-failed: <code>`; one
/// that runs as long as the timeout is stopped and the run fails with `deployer-timeout`;
/// while it runs shorter, the caller sleeps for the poll interval (at most the timeout) and
/// looks again.
pub fn advance(run: DeployRun, candidate: &DeploymentCandidate, event: DeployEvent) -> (r: (DeployRun, DeployAction))
    requires
        expects(run.phase, event),
    ensures
        r.0.timeout_nanos == run.timeout_nanos,
        match event {
            DeployEvent::Checked { is_file } => if is_file {
                &&& r.0.phase == DeployPhase::Starting
                &&& r.1 matches DeployAction::Start { program, arguments, working_directory }
                &&& program@ == candidate.executable@
                &&& string_texts(arguments@) == string_texts(candidate.arguments@)
                &&& option_text(working_directory) == option_text(candidate.working_directory)
            } else {
                &&& r.0.phase == DeployPhase::Finished
                &&& r.1 matches DeployAction::Finish { result: Err(e) } && e@ == "deployer-not-found"@
            },
            DeployEvent::StartFailed { message } => {
                &&& r.0.phase == DeployPhase::Finished
                &&& r.1 matches DeployAction::Finish { result: Err(e) } && e@ == "deployer-start-failed: "@ + message@
            },
            DeployEvent::Started => r.0.phase == DeployPhase::Running && r.1 is Poll,
            DeployEvent::Exited { success, code } => {
                &&& r.0.phase == DeployPhase::Finished
                &&& if success {
                    r.1 matches DeployAction::Finish { result: Ok(()) }
                } else {
                    r.1 matches DeployAction::Finish { result: Err(e) } && e@ == exit_failure_text(code)
                }
            },
            DeployEvent::StillRunning { elapsed_nanos } => if elapsed_nanos >= run.timeout_nanos {
                r.0.phase == DeployPhase::Stopping && r.1 is Stop
            } else {
                &&& r.0.phase == DeployPhase::Running
                &&& r.1 matches DeployAction::Sleep { nanos } && nanos == if POLL_INTERVAL_NANOS
                    < run.timeout_nanos {
                    POLL_INTERVAL_NANOS
                } else {
                    run.timeout_nanos
                }
            },
            DeployEvent::PollFailed { message } => {
                &&& r.0.phase == DeployPhase::Finished
                &&& r.1 matches DeployAction::Finish { result: Err(e) } && e@ == message@
            },
            DeployEvent::Stopped => {
                &&& r.0.phase == DeployPhase::Finished
                &&& r.1 matches DeployAction::Finish { result: Err(e) } && e@ == "deployer-timeout"@
            },
        },
{
    let timeout = run.timeout_nanos;
    proof {
        reveal_strlit("deployer-not-found");
        reveal_strlit("deployer-start-failed: ");
        reveal_strlit("deployer-exit-failed: ");
        reveal_strlit("deployer-timeout");
    }
    match event {
        DeployEvent::Checked { is_file } => {
            if is_file {
                (
                    DeployRun { phase: DeployPhase::Starting, timeout_nanos: timeout },
                    DeployAction::Start {
                        program: copy_string(&candidate.executable),
                        arguments: copy_strings(&candidate.arguments),
                        working_directory: copy_option(&candidate.working_directory),
                    },
                )
            } else {
                (
                    DeployRun { phase: DeployPhase::Finished, timeout_nanos: timeout },
                    DeployAction::Finish { result: Err(String::from_str("deployer-not-found")) },
                )
            }
        },
        DeployEvent::StartFailed { message } => {
            let text = crate::text::concat("deployer-start-failed: ", message.as_str());
            (
                DeployRun { phase: DeployPhase::Finished, timeout_nanos: timeout },
                DeployAction::Finish { result: Err(text) },
            )
        },
        DeployEvent::Started => (
            DeployRun { phase: DeployPhase::Running, timeout_nanos: timeout },
            DeployAction::Poll,
        ),
        DeployEvent::Exited { success, code } => {
            if success {
                (
                    DeployRun { phase: DeployPhase::Finished, timeout_nanos: timeout },
                    DeployAction::Finish { result: Ok(()) },
                )
            } else {
                let number: i64 = match code {
                    Some(c) => c as i64,
                    None => -1,
                };
                let digits = decimal_string(number);
                let text = crate::text::concat("deployer-exit-failed: ", digits.as_str());
                (
                    DeployRun { phase: DeployPhase::Finished, timeout_nanos: timeout },
                    DeployAction::Finish { result: Err(text) },
                )
            }
        },
        DeployEvent::StillRunning { elapsed_nanos } => {
            if elapsed_nanos >= timeout {
                (
                    DeployRun { phase: DeployPhase::Stopping, timeout_nanos: timeout },
                    DeployAction::Stop,
                )
            } else {
                let nanos = if POLL_INTERVAL_NANOS < timeout {
                    POLL_INTERVAL_NANOS
                } else {
                    timeout
                };
                (
                    DeployRun { phase: DeployPhase::Running, timeout_nanos: timeout },
                    DeployAction::Sleep { nanos },
                )
            }
        },
        DeployEvent::PollFailed { message } => (
            DeployRun { phase: DeployPhase::Finished, timeout_nanos: timeout },
            DeployAction::Finish { result: Err(message) },
        ),
        DeployEvent::Stopped => (
            DeployRun { phase: DeployPhase::Finished, timeout_nanos: timeout },
            DeployAction::Finish { result: Err(String::from_str("deployer-timeout")) },
        ),
    }
}


/// On Windows the deployer found is that of the Weasel install with the highest version: its
/// `WeaselDeployer.exe` is a file, and no other install under the program roots that holds a
/// deployer has version numbers (the digit runs of its directory name, first to last) that
/// come after its own.
pub proof fn lemma_weasel_is_highest(context: DeploymentContext, facts: FileFacts)
    requires
        context.platform == Platform::Windows,
        detected_deployer(context, facts) is Some,
    ensures
        ({
            let c = detected_deployer(context, facts).unwrap();
            let dirs = weasel_dirs(Platform::Windows, context.program_roots@, facts);
            exists|i: int|
                0 <= i < dirs.len() && c.working_directory == Some(dirs[i]) && c.executable == join_path(
                    Platform::Windows,
                    dirs[i],
                    "WeaselDeployer.exe"@,
                ) && c.arguments == seq!["/deploy"@] && is_file_fact(facts, c.executable) && forall|j: int|
                    0 <= j < dirs.len() && is_file_fact(
                        facts,
                        #[trigger] join_path(Platform::Windows, dirs[j], "WeaselDeployer.exe"@),
                    ) ==> !numbers_lt(
                        match file_name(Platform::Windows, dirs[i]) {
                            Some(n) => version_numbers_of(n),
                            None => seq![],
                        },
                        match file_name(Platform::Windows, dirs[j]) {
                            Some(n) => version_numbers_of(n),
                            None => seq![],
                        },
                    )
        }),
{
    let platform = Platform::Windows;
    let dirs = weasel_dirs(platform, context.program_roots@, facts);
    let i = choose|i: int| is_latest_weasel(platform, dirs, facts, i);
    lemma_u32_order();
    assert forall|j: int|
        0 <= j < dirs.len() && is_file_fact(facts, #[trigger] join_path(platform, dirs[j], "WeaselDeployer.exe"@))
            implies !numbers_lt(weasel_version(platform, dirs[i]), weasel_version(platform, dirs[j])) by {
        assert(has_weasel(platform, dirs, facts, j));
        let vi = weasel_version(platform, dirs[i]);
        let vj = weasel_version(platform, dirs[j]);
        if j == i {
            lemma_lex_irreflexive_u32(vi);
        } else if numbers_lt(vj, vi) {
            lemma_lex_asymmetric(vj, vi, u32_order());
        } else {
            lemma_lex_irreflexive_u32(vi);
        }
    }
}

proof fn lemma_number_scan_shift(p: Seq<char>, b: Seq<char>, i: int, st: int)
    requires
        0 <= st <= i <= b.len(),
    ensures
        number_scan(p + b, p.len() + i, p.len() + st) == number_scan(b, i, st),
    decreases b.len() - i,
{
    let s = p + b;
    if i < b.len() {
        assert(s[p.len() + i] == b[i]);
        if !is_ascii_digit(b[i]) {
            assert(s.subrange(p.len() + st, p.len() + i) =~= b.subrange(st, i));
            lemma_number_scan_shift(p, b, i + 1, i + 1);
        } else {
            lemma_number_scan_shift(p, b, i + 1, st);
        }
    } else {
        assert(s.subrange(p.len() + st, s.len() as int) =~= b.subrange(st, b.len() as int));
    }
}

proof fn lemma_number_scan_split(a: Seq<char>, c: char, b: Seq<char>, i: int, st: int)
    requires
        0 <= st <= i <= a.len(),
        !is_ascii_digit(c),
    ensures
        number_scan(a + seq![c] + b, i, st) == number_scan(a, i, st) + number_scan(b, 0, 0),
    decreases a.len() - i,
{
    let s = a + seq![c] + b;
    if i < a.len() {
        assert(s[i] == a[i]);
        if !is_ascii_digit(a[i]) {
            assert(s.subrange(st, i) =~= a.subrange(st, i));
            lemma_number_scan_split(a, c, b, i + 1, i + 1);
            assert(run_number(a.subrange(st, i)) + (number_scan(a, i + 1, i + 1) + number_scan(b, 0, 0))
                =~= (run_number(a.subrange(st, i)) + number_scan(a, i + 1, i + 1)) + number_scan(b, 0, 0));
        } else {
            lemma_number_scan_split(a, c, b, i + 1, st);
        }
    } else {
        assert(s[i] == c);
        assert(s.subrange(st, i) =~= a.subrange(st, a.len() as int));
        assert(s =~= (a + seq![c]) + b);
        lemma_number_scan_shift(a + seq![c], b, 0, 0);
    }
}

proof fn lemma_number_scan_digits(d: Seq<char>, i: int)
    requires
        0 <= i <= d.len(),
        forall|k: int| 0 <= k < d.len() ==> is_ascii_digit(#[trigger] d[k]),
    ensures
        number_scan(d, i, 0) == run_number(d),
    decreases d.len() - i,
{
    if i < d.len() {
        lemma_number_scan_digits(d, i + 1);
    } else {
        assert(d.subrange(0, d.len() as int) =~= d);
    }
}

/// The version numbers of a name are read from the left: a character that is not a digit
/// splits a name into parts whose numbers follow one another in the same order.
pub proof fn lemma_version_numbers_in_order(a: Seq<char>, c: char, b: Seq<char>)
    requires
        !('0' <= c && c <= '9'),
    ensures
        version_numbers_of(a + seq![c] + b) == version_numbers_of(a) + version_numbers_of(b),
{
    lemma_number_scan_split(a, c, b, 0, 0);
}

/// A run of ASCII digits is read as the one decimal number it spells, when that fits in a
/// `u32`.
pub proof fn lemma_version_number_of_digits(d: Seq<char>)
    requires
        d.len() > 0,
        forall|k: int| 0 <= k < d.len() ==> '0' <= #[trigger] d[k] && d[k] <= '9',
        decimal_value(d) <= u32::MAX,
    ensures
        version_numbers_of(d) == seq![decimal_value(d) as u32],
{
    lemma_number_scan_digits(d, 0);
}

} // verus!
