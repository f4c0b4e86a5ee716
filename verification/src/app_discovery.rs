//! Discovery: what each scanner makes of the files and registry entries it
//! was shown, and the merge of all candidates into one registry with one
//! record for each path.

use vstd::hash_map::StringHashMap;
use vstd::prelude::*;

use crate::paths::{
    extension_of, file_stem, file_stem_of, has_extension, lemma_extension_implies_stem,
};

verus! {

/// How many directory levels below an installation root are searched for
/// executables.
pub const PROGRAM_SCAN_DEPTH: usize = 3;

/// One launchable application.
#[derive(Debug)]
pub struct AppInfo {
    /// The label shown to the user.
    pub name: String,
    /// The path that launches the application, and the key of its record.
    pub path: String,
    /// The icon, once resolved, as a data URI.
    pub icon_path: Option<String>,
    pub description: Option<String>,
}

/// An `AppInfo` with its strings as sequences of characters.
pub struct AppInfoView {
    pub name: Seq<char>,
    pub path: Seq<char>,
    pub icon_path: Option<Seq<char>>,
    pub description: Option<Seq<char>>,
}

impl View for AppInfo {
    type V = AppInfoView;

    open spec fn view(&self) -> AppInfoView {
        AppInfoView {
            name: self.name@,
            path: self.path@,
            icon_path: self.icon_path.deep_view(),
            description: self.description.deep_view(),
        }
    }
}

impl DeepView for AppInfo {
    type V = AppInfoView;

    open spec fn deep_view(&self) -> AppInfoView {
        self@
    }
}

/// A copy of an optional string.
fn clone_text(text: &Option<String>) -> (copy: Option<String>)
    ensures
        copy.deep_view() == text.deep_view(),
{
    match text {
        Some(s) => Some(s.clone()),
        None => None,
    }
}

impl Clone for AppInfo {
    fn clone(&self) -> (copy: Self)
        ensures
            copy@ == self@,
    {
        AppInfo {
            name: self.name.clone(),
            path: self.path.clone(),
            icon_path: clone_text(&self.icon_path),
            description: clone_text(&self.description),
        }
    }
}

/// A file or directory that a walk of a directory tree came upon.
#[derive(Debug)]
pub struct FoundFile {
    /// The path, with whatever in it is no Unicode text replaced.
    pub path: String,
    /// Whether the stem of the file's name is Unicode text.
    pub stem_is_unicode: bool,
}

/// A `FoundFile` with its path as a sequence of characters.
pub struct FoundFileView {
    pub path: Seq<char>,
    pub stem_is_unicode: bool,
}

impl View for FoundFile {
    type V = FoundFileView;

    open spec fn view(&self) -> FoundFileView {
        FoundFileView { path: self.path@, stem_is_unicode: self.stem_is_unicode }
    }
}

impl DeepView for FoundFile {
    type V = FoundFileView;

    open spec fn deep_view(&self) -> FoundFileView {
        self@
    }
}

/// A record as the file scanners make it: a name, a path, nothing else.
pub open spec fn bare_record(name: Seq<char>, path: Seq<char>) -> AppInfoView {
    AppInfoView { name, path, icon_path: None, description: None }
}

/// The record for a shortcut file: named by the file's stem, with the
/// shortcut's own path, not the path it points to. A file whose stem is no
/// Unicode text gets none.
pub open spec fn shortcut_of(file: FoundFileView) -> Option<AppInfoView> {
    match file_stem_of(file.path) {
        Some(stem) => if file.stem_is_unicode {
            Some(bare_record(stem, file.path))
        } else {
            None
        },
        None => None,
    }
}

/// What the shortcut scanner makes of one file below a start menu directory:
/// a record where the file is a shortcut.
pub open spec fn start_menu_candidate(file: FoundFileView) -> Option<AppInfoView> {
    if extension_of(file.path) == Some("lnk"@) {
        shortcut_of(file)
    } else {
        None
    }
}

/// The name of the record for an executable: the file's stem, or `Unknown`
/// where the stem is no Unicode text.
pub open spec fn program_name(file: FoundFileView) -> Seq<char> {
    if file.stem_is_unicode && file_stem_of(file.path) is Some {
        file_stem_of(file.path)->0
    } else {
        "Unknown"@
    }
}

/// What the directory scanner makes of one file below an installation root:
/// a record where the file is an executable.
pub open spec fn program_candidate(file: FoundFileView) -> Option<AppInfoView> {
    if extension_of(file.path) == Some("exe"@) {
        Some(bare_record(program_name(file), file.path))
    } else {
        None
    }
}

/// The shortcut scanner's rule, as a function.
pub open spec fn start_menu_rule() -> spec_fn(FoundFileView) -> Option<AppInfoView> {
    |file: FoundFileView| start_menu_candidate(file)
}

/// The directory scanner's rule, as a function.
pub open spec fn program_rule() -> spec_fn(FoundFileView) -> Option<AppInfoView> {
    |file: FoundFileView| program_candidate(file)
}

/// The record for a shortcut file.
pub fn parse_shortcut(file: &FoundFile) -> (app: Option<AppInfo>)
    ensures
        app.deep_view() == shortcut_of(file@),
{
    match file_stem(file.path.as_str()) {
        Some(stem) => if file.stem_is_unicode {
            Some(
                AppInfo {
                    name: stem,
                    path: file.path.clone(),
                    icon_path: None,
                    description: None,
                },
            )
        } else {
            None
        },
        None => None,
    }
}

/// The directory of the start menu shortcuts that every user shares.
pub fn shared_start_menu() -> (dir: String)
    ensures
        dir@ == "C:\\ProgramData\\Microsoft\\Windows\\Start Menu\\Programs"@,
{
    "C:\\ProgramData\\Microsoft\\Windows\\Start Menu\\Programs".to_owned()
}

/// Where a user's own start menu shortcuts lie, below that user's local
/// application data.
pub fn user_start_menu_suffix() -> (dir: String)
    ensures
        dir@ == "Microsoft\\Windows\\Start Menu\\Programs"@,
{
    "Microsoft\\Windows\\Start Menu\\Programs".to_owned()
}

/// The shortcut scanner: appends a record for every shortcut among `files`,
/// the files found below the start menu directories, in the order found.
pub fn scan_start_menu(apps: &mut Vec<AppInfo>, files: &Vec<FoundFile>)
    ensures
        final(apps).deep_view() == old(apps).deep_view() + files.deep_view().filter_map(
            start_menu_rule(),
        ),
{
    let ghost before = apps.deep_view();
    let ghost paths = files.deep_view();
    assert(paths.take(0).filter_map(start_menu_rule()) =~= Seq::<AppInfoView>::empty());
    assert(apps.deep_view() =~= before + paths.take(0).filter_map(start_menu_rule()));
    for i in 0..files.len()
        invariant
            paths == files.deep_view(),
            apps.deep_view() == before + paths.take(i as int).filter_map(start_menu_rule()),
    {
        let ghost so_far = apps.deep_view();
        proof {
            paths.lemma_filter_map_take_succ(start_menu_rule(), i as int);
        }
        if has_extension(files[i].path.as_str(), "lnk") {
            if let Some(app) = parse_shortcut(&files[i]) {
                apps.push(app);
                assert(apps.deep_view() =~= so_far.push(app@));
            }
        }
        assert(apps.deep_view() =~= before + paths.take(i + 1).filter_map(start_menu_rule()));
    }
    assert(paths.take(files.len() as int) =~= paths);
}

/// The installation roots: three fixed directories, then each override that
/// the environment supplies, in the order `ProgramFiles`,
/// `ProgramFiles(x86)`, `ProgramData`.
pub open spec fn program_roots(
    program_files: Option<Seq<char>>,
    program_files_x86: Option<Seq<char>>,
    program_data: Option<Seq<char>>,
) -> Seq<Seq<char>> {
    seq!["C:\\Program Files"@, "C:\\Program Files (x86)"@, "C:\\ProgramData"@] + (
    match program_files {
        Some(dir) => seq![dir],
        None => seq![],
    }) + (match program_files_x86 {
        Some(dir) => seq![dir],
        None => seq![],
    }) + (match program_data {
        Some(dir) => seq![dir],
        None => seq![],
    })
}

/// The installation roots to walk, given the values of the environment
/// variables `ProgramFiles`, `ProgramFiles(x86)` and `ProgramData`.
pub fn program_dirs(
    program_files: Option<String>,
    program_files_x86: Option<String>,
    program_data: Option<String>,
) -> (dirs: Vec<String>)
    ensures
        dirs.deep_view() == program_roots(
            program_files.deep_view(),
            program_files_x86.deep_view(),
            program_data.deep_view(),
        ),
{
    let mut dirs: Vec<String> = Vec::new();
    dirs.push("C:\\Program Files".to_owned());
    dirs.push("C:\\Program Files (x86)".to_owned());
    dirs.push("C:\\ProgramData".to_owned());
    if let Some(dir) = program_files {
        dirs.push(dir);
    }
    if let Some(dir) = program_files_x86 {
        dirs.push(dir);
    }
    if let Some(dir) = program_data {
        dirs.push(dir);
    }
    assert(dirs.deep_view() =~= program_roots(
        program_files.deep_view(),
        program_files_x86.deep_view(),
        program_data.deep_view(),
    ));
    dirs
}

/// The directory scanner: appends a record for every executable among
/// `files`, the files found at most `PROGRAM_SCAN_DEPTH` levels below the
/// installation roots, in the order found.
pub fn scan_program_files(apps: &mut Vec<AppInfo>, files: &Vec<FoundFile>)
    ensures
        final(apps).deep_view() == old(apps).deep_view() + files.deep_view().filter_map(
            program_rule(),
        ),
{
    let ghost before = apps.deep_view();
    let ghost paths = files.deep_view();
    assert(paths.take(0).filter_map(program_rule()) =~= Seq::<AppInfoView>::empty());
    assert(apps.deep_view() =~= before + paths.take(0).filter_map(program_rule()));
    for i in 0..files.len()
        invariant
            paths == files.deep_view(),
            apps.deep_view() == before + paths.take(i as int).filter_map(program_rule()),
    {
        let ghost so_far = apps.deep_view();
        proof {
            paths.lemma_filter_map_take_succ(program_rule(), i as int);
        }
        if has_extension(files[i].path.as_str(), "exe") {
            let name = match (files[i].stem_is_unicode, file_stem(files[i].path.as_str())) {
                (true, Some(stem)) => stem,
                _ => "Unknown".to_owned(),
            };
            let app = AppInfo {
                name,
                path: files[i].path.clone(),
                icon_path: None,
                description: None,
            };
            apps.push(app);
            assert(apps.deep_view() =~= so_far.push(app@));
        }
        assert(apps.deep_view() =~= before + paths.take(i + 1).filter_map(program_rule()));
    }
    assert(paths.take(files.len() as int) =~= paths);
}

/// A path that was tested for a file.
#[derive(Debug)]
pub struct ProbedFile {
    pub path: String,
    /// Whether something exists at `path`.
    pub exists: bool,
}

/// A `ProbedFile` with its path as a sequence of characters.
pub struct ProbedFileView {
    pub path: Seq<char>,
    pub exists: bool,
}

impl View for ProbedFile {
    type V = ProbedFileView;

    open spec fn view(&self) -> ProbedFileView {
        ProbedFileView { path: self.path@, exists: self.exists }
    }
}

impl DeepView for ProbedFile {
    type V = ProbedFileView;

    open spec fn deep_view(&self) -> ProbedFileView {
        self@
    }
}

/// One entry of the system's list of installed software, with what was
/// found in the directory it names.
#[derive(Debug)]
pub struct UninstallEntry {
    /// The value `DisplayName`, where the entry has one.
    pub display_name: Option<String>,
    /// The value `InstallLocation`, where the entry has one.
    pub install_location: Option<String>,
    /// The conventional executable names joined to the install location,
    /// in the order of `conventional_executables`, each with the outcome
    /// of the test for it.
    pub probes: Vec<ProbedFile>,
    /// The paths of the entries directly inside the install location, or
    /// nothing where it is no directory that can be read.
    pub listing: Vec<String>,
}

/// An `UninstallEntry` with its strings as sequences of characters.
pub struct UninstallEntryView {
    pub display_name: Option<Seq<char>>,
    pub install_location: Option<Seq<char>>,
    pub probes: Seq<ProbedFileView>,
    pub listing: Seq<Seq<char>>,
}

impl View for UninstallEntry {
    type V = UninstallEntryView;

    open spec fn view(&self) -> UninstallEntryView {
        UninstallEntryView {
            display_name: self.display_name.deep_view(),
            install_location: self.install_location.deep_view(),
            probes: self.probes.deep_view(),
            listing: self.listing.deep_view(),
        }
    }
}

impl DeepView for UninstallEntry {
    type V = UninstallEntryView;

    open spec fn deep_view(&self) -> UninstallEntryView {
        self@
    }
}

/// The first path among `probes` at which something exists.
pub open spec fn first_existing(probes: Seq<ProbedFileView>) -> Option<Seq<char>>
    decreases probes.len(),
{
    if probes.len() == 0 {
        None
    } else if probes[0].exists {
        Some(probes[0].path)
    } else {
        first_existing(probes.drop_first())
    }
}

/// The first path in `listing` with the extension of an executable.
pub open spec fn first_executable(listing: Seq<Seq<char>>) -> Option<Seq<char>>
    decreases listing.len(),
{
    if listing.len() == 0 {
        None
    } else if extension_of(listing[0]) == Some("exe"@) {
        Some(listing[0])
    } else {
        first_executable(listing.drop_first())
    }
}

/// The main executable of an installation: the first conventional name that
/// exists, else the first executable directly inside the directory.
pub open spec fn main_executable(probes: Seq<ProbedFileView>, listing: Seq<Seq<char>>) -> Option<
    Seq<char>,
> {
    match first_existing(probes) {
        Some(path) => Some(path),
        None => first_executable(listing),
    }
}

/// An entry is looked into where it has a display name and an install
/// location, and neither is empty.
pub open spec fn names_installation(entry: UninstallEntryView) -> bool {
    &&& entry.display_name is Some
    &&& entry.display_name->0.len() > 0
    &&& entry.install_location is Some
    &&& entry.install_location->0.len() > 0
}

/// What the registry scanner makes of one entry: a record under its display
/// name, which is its description too, for its main executable.
pub open spec fn registry_candidate(entry: UninstallEntryView) -> Option<AppInfoView> {
    if names_installation(entry) {
        match main_executable(entry.probes, entry.listing) {
            Some(path) => Some(
                AppInfoView {
                    name: entry.display_name->0,
                    path,
                    icon_path: None,
                    description: entry.display_name,
                },
            ),
            None => None,
        }
    } else {
        None
    }
}

/// The registry scanner's rule, as a function.
pub open spec fn registry_rule() -> spec_fn(UninstallEntryView) -> Option<AppInfoView> {
    |entry: UninstallEntryView| registry_candidate(entry)
}

/// The file names that are tried first as an installation's main
/// executable, in the order tried.
pub fn conventional_executables() -> (names: Vec<String>)
    ensures
        names.deep_view() == seq!["app.exe"@, "main.exe"@, "launcher.exe"@],
{
    let mut names: Vec<String> = Vec::new();
    names.push("app.exe".to_owned());
    names.push("main.exe".to_owned());
    names.push("launcher.exe".to_owned());
    assert(names.deep_view() =~= seq!["app.exe"@, "main.exe"@, "launcher.exe"@]);
    names
}

/// The main executable of an installation, from the outcome of the tests
/// for the conventional names and the listing of its directory.
pub fn find_main_executable(probes: &Vec<ProbedFile>, listing: &Vec<String>) -> (path: Option<
    String,
>)
    ensures
        path.deep_view() == main_executable(probes.deep_view(), listing.deep_view()),
{
    let ghost all_probes = probes.deep_view();
    assert(all_probes.skip(0) =~= all_probes);
    for i in 0..probes.len()
        invariant
            all_probes == probes.deep_view(),
            first_existing(all_probes) == first_existing(all_probes.skip(i as int)),
    {
        assert(all_probes.skip(i as int).drop_first() =~= all_probes.skip(i + 1));
        if probes[i].exists {
            return Some(probes[i].path.clone());
        }
    }
    let ghost all_listed = listing.deep_view();
    assert(all_listed.skip(0) =~= all_listed);
    for i in 0..listing.len()
        invariant
            all_listed == listing.deep_view(),
            first_existing(probes.deep_view()) is None,
            first_executable(all_listed) == first_executable(all_listed.skip(i as int)),
    {
        assert(all_listed.skip(i as int).drop_first() =~= all_listed.skip(i + 1));
        if has_extension(listing[i].as_str(), "exe") {
            return Some(listing[i].clone());
        }
    }
    None
}

impl UninstallEntry {
    /// An entry with the two values read from the registry, and nothing
    /// found yet.
    pub fn new(display_name: Option<String>, install_location: Option<String>) -> (entry: Self)
        ensures
            entry@ == (UninstallEntryView {
                display_name: display_name.deep_view(),
                install_location: install_location.deep_view(),
                probes: Seq::empty(),
                listing: Seq::empty(),
            }),
    {
        let entry = UninstallEntry {
            display_name,
            install_location,
            probes: Vec::new(),
            listing: Vec::new(),
        };
        assert(entry.probes.deep_view() =~= Seq::<ProbedFileView>::empty());
        assert(entry.listing.deep_view() =~= Seq::<Seq<char>>::empty());
        entry
    }

    /// Whether the entry's install location is worth looking into.
    pub fn names_installation(&self) -> (wanted: bool)
        ensures
            wanted == names_installation(self@),
    {
        match (&self.display_name, &self.install_location) {
            (Some(name), Some(location)) => !name.as_str().is_empty()
                && !location.as_str().is_empty(),
            _ => false,
        }
    }
}

/// The registry scanner: appends a record for every entry of `entries` that
/// names an installation with a main executable, in the order given.
pub fn scan_registry(apps: &mut Vec<AppInfo>, entries: &Vec<UninstallEntry>)
    ensures
        final(apps).deep_view() == old(apps).deep_view() + entries.deep_view().filter_map(
            registry_rule(),
        ),
{
    let ghost before = apps.deep_view();
    let ghost all = entries.deep_view();
    assert(all.take(0).filter_map(registry_rule()) =~= Seq::<AppInfoView>::empty());
    assert(apps.deep_view() =~= before + all.take(0).filter_map(registry_rule()));
    for i in 0..entries.len()
        invariant
            all == entries.deep_view(),
            apps.deep_view() == before + all.take(i as int).filter_map(registry_rule()),
    {
        let ghost so_far = apps.deep_view();
        proof {
            all.lemma_filter_map_take_succ(registry_rule(), i as int);
        }
        let entry = &entries[i];
        if entry.names_installation() {
            if let Some(path) = find_main_executable(&entry.probes, &entry.listing) {
                if let Some(name) = &entry.display_name {
                    let app = AppInfo {
                        name: name.clone(),
                        path,
                        icon_path: None,
                        description: Some(name.clone()),
                    };
                    apps.push(app);
                    assert(apps.deep_view() =~= so_far.push(app@));
                }
            }
        }
        assert(apps.deep_view() =~= before + all.take(i + 1).filter_map(registry_rule()));
    }
    assert(all.take(entries.len() as int) =~= all);
}

/// Some record of `registry` has the path `path`.
pub open spec fn holds_path(registry: Seq<AppInfoView>, path: Seq<char>) -> bool {
    exists|i: int| 0 <= i < registry.len() && registry[i].path == path
}

/// The place of a record with the path `path` in `registry`.
pub open spec fn index_of_path(registry: Seq<AppInfoView>, path: Seq<char>) -> int {
    choose|i: int| 0 <= i < registry.len() && registry[i].path == path
}

/// No two records of `registry` have the same path.
pub open spec fn unique_paths(registry: Seq<AppInfoView>) -> bool {
    forall|i: int, j: int| 0 <= i < j < registry.len() ==> registry[i].path != registry[j].path
}

/// `registry` after `record` was discovered: it takes the place of the
/// record with its path, or the last place where there is none.
pub open spec fn upsert(registry: Seq<AppInfoView>, record: AppInfoView) -> Seq<AppInfoView> {
    if holds_path(registry, record.path) {
        registry.update(index_of_path(registry, record.path), record)
    } else {
        registry.push(record)
    }
}

/// The registry that the candidates make, taken in the order discovered.
pub open spec fn merged(candidates: Seq<AppInfoView>) -> Seq<AppInfoView>
    decreases candidates.len(),
{
    if candidates.len() == 0 {
        Seq::empty()
    } else {
        upsert(merged(candidates.drop_last()), candidates.last())
    }
}

/// Records as a mapping from path to record, each inserted in turn: of two
/// records with one path the later stays.
pub open spec fn by_path(records: Seq<AppInfoView>) -> Map<Seq<char>, AppInfoView>
    decreases records.len(),
{
    if records.len() == 0 {
        Map::empty()
    } else {
        by_path(records.drop_last()).insert(records.last().path, records.last())
    }
}

/// No candidate after the one at `at` has its path.
pub open spec fn is_last_of_its_path(candidates: Seq<AppInfoView>, at: int) -> bool {
    &&& 0 <= at < candidates.len()
    &&& forall|later: int|
        at < later < candidates.len() ==> candidates[later].path != candidates[at].path
}

/// All candidates of one discovery run, in the fixed order of the scanners:
/// shortcuts, then installation directories, then the registry.
pub open spec fn candidates_of(
    start_menu: Seq<FoundFileView>,
    program_files: Seq<FoundFileView>,
    uninstall: Seq<UninstallEntryView>,
) -> Seq<AppInfoView> {
    start_menu.filter_map(start_menu_rule()) + program_files.filter_map(program_rule())
        + uninstall.filter_map(registry_rule())
}

/// The registry of one discovery run.
pub open spec fn discovered(
    start_menu: Seq<FoundFileView>,
    program_files: Seq<FoundFileView>,
    uninstall: Seq<UninstallEntryView>,
) -> Seq<AppInfoView> {
    merged(candidates_of(start_menu, program_files, uninstall))
}

/// Taking one more record in keeps the paths unique, keeps every path that
/// was there, and holds the new record.
pub proof fn lemma_upsert(registry: Seq<AppInfoView>, record: AppInfoView)
    requires
        unique_paths(registry),
    ensures
        unique_paths(upsert(registry, record)),
        upsert(registry, record).contains(record),
        forall|path: Seq<char>|
            holds_path(upsert(registry, record), path) <==> (holds_path(registry, path) || path
                == record.path),
        forall|i: int|
            0 <= i < registry.len() && registry[i].path != record.path ==> upsert(
                registry,
                record,
            )[i] == registry[i],
        registry.len() <= upsert(registry, record).len() <= registry.len() + 1,
{
    let next = upsert(registry, record);
    if holds_path(registry, record.path) {
        let at = index_of_path(registry, record.path);
        assert(next[at] == record);
        assert forall|path: Seq<char>| holds_path(next, path) <==> (holds_path(registry, path)
            || path == record.path) by {
            if holds_path(next, path) {
                let i = choose|i: int| 0 <= i < next.len() && next[i].path == path;
                assert(registry[i].path == path);
            }
            if holds_path(registry, path) {
                let i = choose|i: int| 0 <= i < registry.len() && registry[i].path == path;
                assert(next[i].path == path);
            }
            if path == record.path {
                assert(next[at].path == path);
            }
        }
    } else {
        assert(next[registry.len() as int] == record);
        assert forall|path: Seq<char>| holds_path(next, path) <==> (holds_path(registry, path)
            || path == record.path) by {
            if holds_path(next, path) {
                let i = choose|i: int| 0 <= i < next.len() && next[i].path == path;
                if i < registry.len() {
                    assert(registry[i].path == path);
                }
            }
            if holds_path(registry, path) {
                let i = choose|i: int| 0 <= i < registry.len() && registry[i].path == path;
                assert(next[i].path == path);
            }
            if path == record.path {
                assert(next[registry.len() as int].path == path);
            }
        }
    }
}

/// Uniqueness: no two records of a merged registry have the same path.
pub proof fn lemma_merged_unique(candidates: Seq<AppInfoView>)
    ensures
        unique_paths(merged(candidates)),
    decreases candidates.len(),
{
    if candidates.len() > 0 {
        lemma_merged_unique(candidates.drop_last());
        lemma_upsert(merged(candidates.drop_last()), candidates.last());
    }
}

/// The paths of a merged registry are the paths of the candidates.
pub proof fn lemma_merged_paths(candidates: Seq<AppInfoView>)
    ensures
        forall|path: Seq<char>|
            holds_path(merged(candidates), path) <==> holds_path(candidates, path),
    decreases candidates.len(),
{
    if candidates.len() > 0 {
        let earlier = candidates.drop_last();
        lemma_merged_paths(earlier);
        lemma_merged_unique(earlier);
        lemma_upsert(merged(earlier), candidates.last());
        assert forall|path: Seq<char>| holds_path(merged(candidates), path) <==> holds_path(
            candidates,
            path,
        ) by {
            if holds_path(candidates, path) {
                let i = choose|i: int| 0 <= i < candidates.len() && candidates[i].path == path;
                if i < earlier.len() {
                    assert(earlier[i].path == path);
                }
            }
            if holds_path(earlier, path) {
                let i = choose|i: int| 0 <= i < earlier.len() && earlier[i].path == path;
                assert(candidates[i].path == path);
            }
            if path == candidates.last().path {
                assert(candidates[candidates.len() - 1].path == path);
            }
        }
    } else {
        assert forall|path: Seq<char>| !holds_path(merged(candidates), path) by {}
    }
}

/// Last writer wins: every record of a merged registry is the last
/// candidate that was discovered with its path.
pub proof fn lemma_merged_last_wins(candidates: Seq<AppInfoView>)
    ensures
        forall|i: int|
            0 <= i < merged(candidates).len() ==> exists|at: int|
                is_last_of_its_path(candidates, at) && #[trigger] merged(candidates)[i]
                    == candidates[at],
    decreases candidates.len(),
{
    if candidates.len() > 0 {
        let earlier = candidates.drop_last();
        let record = candidates.last();
        let before = merged(earlier);
        let after = merged(candidates);
        lemma_merged_last_wins(earlier);
        lemma_merged_unique(earlier);
        lemma_upsert(before, record);
        assert forall|i: int| 0 <= i < after.len() implies exists|at: int|
            is_last_of_its_path(candidates, at) && #[trigger] after[i] == candidates[at] by {
            if after[i].path == record.path {
                lemma_merged_unique(candidates);
                assert(after.contains(record));
                let r = choose|r: int| 0 <= r < after.len() && after[r] == record;
                assert(r == i);
                assert(is_last_of_its_path(candidates, candidates.len() - 1));
            } else {
                if i < before.len() {
                    assert(after[i] == before[i]) by {
                        if holds_path(before, record.path) {
                            let at = index_of_path(before, record.path);
                            assert(after == before.update(at, record));
                        } else {
                            assert(after == before.push(record));
                        }
                    }
                    let at = choose|at: int|
                        is_last_of_its_path(earlier, at) && before[i] == earlier[at];
                    assert(earlier[at] == candidates[at]);
                    assert forall|later: int|
                        at < later < candidates.len() implies candidates[later].path
                        != candidates[at].path by {
                        if later < earlier.len() {
                            assert(earlier[later] == candidates[later]);
                        }
                    }
                    assert(is_last_of_its_path(candidates, at));
                    assert(after[i] == candidates[at]);
                } else {
                    assert(after == before.push(record));
                }
            }
        }
    }
}

/// Replacing the record of a path changes the mapping as inserting the
/// new record does.
proof fn lemma_by_path_update(registry: Seq<AppInfoView>, at: int, record: AppInfoView)
    requires
        unique_paths(registry),
        0 <= at < registry.len(),
        registry[at].path == record.path,
    ensures
        by_path(registry.update(at, record)) == by_path(registry).insert(record.path, record),
    decreases registry.len(),
{
    let earlier = registry.drop_last();
    let last = registry.last();
    if at == registry.len() - 1 {
        assert(registry.update(at, record).drop_last() =~= earlier);
        assert(by_path(registry.update(at, record)) =~= by_path(registry).insert(
            record.path,
            record,
        ));
    } else {
        assert(registry.update(at, record).drop_last() =~= earlier.update(at, record));
        assert(earlier[at] == registry[at]);
        assert(unique_paths(earlier)) by {
            assert forall|i: int, j: int| 0 <= i < j < earlier.len() implies earlier[i].path
                != earlier[j].path by {
                assert(earlier[i] == registry[i] && earlier[j] == registry[j]);
            }
        }
        lemma_by_path_update(earlier, at, record);
        assert(last.path != record.path);
        assert(by_path(registry.update(at, record)) =~= by_path(registry).insert(
            record.path,
            record,
        ));
    }
}

/// The registry as a mapping: merging is inserting each candidate in turn
/// under its path.
pub proof fn lemma_merged_by_path(candidates: Seq<AppInfoView>)
    ensures
        by_path(merged(candidates)) == by_path(candidates),
    decreases candidates.len(),
{
    if candidates.len() > 0 {
        let earlier = candidates.drop_last();
        let record = candidates.last();
        let before = merged(earlier);
        lemma_merged_by_path(earlier);
        lemma_merged_unique(earlier);
        if holds_path(before, record.path) {
            lemma_by_path_update(before, index_of_path(before, record.path), record);
        } else {
            assert(before.push(record).drop_last() =~= before);
        }
    }
}

/// Every candidate that is the last of its path stands in the merged
/// registry.
pub proof fn lemma_merged_holds_last(candidates: Seq<AppInfoView>, at: int)
    requires
        is_last_of_its_path(candidates, at),
    ensures
        merged(candidates).contains(candidates[at]),
{
    let registry = merged(candidates);
    lemma_merged_paths(candidates);
    lemma_merged_last_wins(candidates);
    assert(holds_path(candidates, candidates[at].path));
    let i = choose|i: int| 0 <= i < registry.len() && registry[i].path == candidates[at].path;
    let other = choose|other: int|
        is_last_of_its_path(candidates, other) && registry[i] == candidates[other];
    assert(other == at) by {
        if other < at {
            assert(candidates[at].path != candidates[other].path);
        }
        if at < other {
            assert(candidates[other].path != candidates[at].path);
        }
    }
}

/// Every record has a name.
pub open spec fn all_named(records: Seq<AppInfoView>) -> bool {
    forall|i: int| 0 <= i < records.len() ==> (#[trigger] records[i]).name.len() > 0
}

/// The scanners name every candidate: a file by its stem, an installation
/// by its display name.
pub proof fn lemma_candidates_named(
    start_menu: Seq<FoundFileView>,
    program_files: Seq<FoundFileView>,
    uninstall: Seq<UninstallEntryView>,
)
    ensures
        all_named(candidates_of(start_menu, program_files, uninstall)),
{
    let shortcuts = start_menu.filter_map(start_menu_rule());
    let programs = program_files.filter_map(program_rule());
    let installed = uninstall.filter_map(registry_rule());
    assert forall|i: int| 0 <= i < shortcuts.len() implies (#[trigger] shortcuts[i]).name.len()
        > 0 by {
        assert(shortcuts.contains(shortcuts[i]));
        start_menu.lemma_filter_map_contains(start_menu_rule(), shortcuts[i]);
        let file = choose|file: FoundFileView| #[trigger]
            start_menu.contains(file) && start_menu_rule()(file) == Some(shortcuts[i]);
        lemma_extension_implies_stem(file.path);
    }
    assert forall|i: int| 0 <= i < programs.len() implies (#[trigger] programs[i]).name.len()
        > 0 by {
        assert(programs.contains(programs[i]));
        program_files.lemma_filter_map_contains(program_rule(), programs[i]);
        let file = choose|file: FoundFileView| #[trigger]
            program_files.contains(file) && program_rule()(file) == Some(programs[i]);
        lemma_extension_implies_stem(file.path);
        reveal_strlit("Unknown");
    }
    assert forall|i: int| 0 <= i < installed.len() implies (#[trigger] installed[i]).name.len()
        > 0 by {
        assert(installed.contains(installed[i]));
        uninstall.lemma_filter_map_contains(registry_rule(), installed[i]);
    }
}

/// A registry merged from named candidates holds named records only.
pub proof fn lemma_merged_named(candidates: Seq<AppInfoView>)
    requires
        all_named(candidates),
    ensures
        all_named(merged(candidates)),
{
    lemma_merged_last_wins(candidates);
}

/// Merge determinism: two registries of the same run are the same registry.
pub proof fn lemma_discovery_deterministic(
    start_menu: Seq<FoundFileView>,
    program_files: Seq<FoundFileView>,
    uninstall: Seq<UninstallEntryView>,
    first: Seq<AppInfoView>,
    second: Seq<AppInfoView>,
)
    requires
        first == discovered(start_menu, program_files, uninstall),
        second == discovered(start_menu, program_files, uninstall),
    ensures
        first == second,
{
}

/// Merges candidates into a registry: one record for each path, in the
/// order in which the paths were first discovered, each the last candidate
/// with its path.
pub fn merge_by_path(candidates: &Vec<AppInfo>) -> (registry: Vec<AppInfo>)
    ensures
        registry.deep_view() == merged(candidates.deep_view()),
        unique_paths(registry.deep_view()),
        by_path(registry.deep_view()) == by_path(candidates.deep_view()),
{
    let ghost all = candidates.deep_view();
    let mut registry: Vec<AppInfo> = Vec::new();
    let mut places: StringHashMap<usize> = StringHashMap::new();
    assert(registry.deep_view() =~= merged(all.take(0)));
    for i in 0..candidates.len()
        invariant
            all == candidates.deep_view(),
            registry.deep_view() == merged(all.take(i as int)),
            unique_paths(registry.deep_view()),
            forall|k: int|
                0 <= k < registry.len() ==> places@.contains_key(
                    #[trigger] registry.deep_view()[k].path,
                ) && places@[registry.deep_view()[k].path] == k,
            forall|path: Seq<char>| #[trigger]
                places@.contains_key(path) ==> holds_path(registry.deep_view(), path),
    {
        let ghost before = registry.deep_view();
        let app = candidates[i].clone();
        proof {
            assert(all.take(i + 1).drop_last() =~= all.take(i as int));
            assert(all.take(i + 1).last() == app@);
            lemma_upsert(before, app@);
        }
        match places.get(app.path.as_str()) {
            Some(place) => {
                let at: usize = *place;
                proof {
                    assert(holds_path(before, app@.path));
                    let found = index_of_path(before, app@.path);
                    assert(places@[before[found].path] == found);
                }
                registry.set(at, app);
                assert(registry.deep_view() =~= before.update(at as int, app@));
            },
            None => {
                proof {
                    if holds_path(before, app@.path) {
                        let found = index_of_path(before, app@.path);
                        assert(places@.contains_key(before[found].path));
                    }
                }
                places.insert(app.path.clone(), registry.len());
                registry.push(app);
                assert(registry.deep_view() =~= before.push(app@));
            },
        }
    }
    assert(all.take(candidates.len() as int) =~= all);
    proof {
        lemma_merged_by_path(all);
    }
    registry
}

/// One discovery run over what the three sources showed: the files found
/// below the start menu directories, the files found below the
/// installation roots, and the entries of the list of installed software.
/// The registry holds one record for each path that a scanner produced.
pub fn scan_windows_apps(
    start_menu: &Vec<FoundFile>,
    program_files: &Vec<FoundFile>,
    uninstall: &Vec<UninstallEntry>,
) -> (registry: Vec<AppInfo>)
    ensures
        registry.deep_view() == discovered(
            start_menu.deep_view(),
            program_files.deep_view(),
            uninstall.deep_view(),
        ),
        unique_paths(registry.deep_view()),
        all_named(registry.deep_view()),
{
    let mut apps: Vec<AppInfo> = Vec::new();
    assert(apps.deep_view() =~= Seq::<AppInfoView>::empty());
    scan_start_menu(&mut apps, start_menu);
    scan_program_files(&mut apps, program_files);
    scan_registry(&mut apps, uninstall);
    assert(apps.deep_view() =~= candidates_of(
        start_menu.deep_view(),
        program_files.deep_view(),
        uninstall.deep_view(),
    ));
    proof {
        lemma_candidates_named(
            start_menu.deep_view(),
            program_files.deep_view(),
            uninstall.deep_view(),
        );
        lemma_merged_named(apps.deep_view());
    }
    merge_by_path(&apps)
}

} // verus!
