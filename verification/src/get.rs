//! Fetching received files from a server: who logs in where, what is asked of the server, and what its
//! answers mean.
use vstd::prelude::*;
use vstd::slice::slice_subrange;
use crate::config::NymxConfig;
use crate::text::{
    contains_text, ends_with, first_index, from_chars, joined, lines, optional_text, owned,
    parse_number, parse_unsigned, same_chars, split_lines, texts, to_chars, trim, trim_chars,
};

verus! {

/// The port of the server where none is set.
pub const DEFAULT_PORT: u16 = 22;

/// Why nobody can log in.
#[derive(Debug, Clone, Copy, PartialEq, Eq, Structural)]
pub enum LoginError {
    /// No host is set.
    NoHost,
    /// The user or the host has no name.
    Incomplete,
}

impl LoginError {
    /// What is said of the error.
    pub open spec fn text(self) -> Seq<char> {
        match self {
            LoginError::NoHost => "No host specified. Provide it via nymx.json"@,
            LoginError::Incomplete => "Username and host are required"@,
        }
    }

    /// What is said of the error.
    pub fn message(&self) -> (s: &'static str)
        ensures
            s@ == self.text(),
    {
        match self {
            LoginError::NoHost => "No host specified. Provide it via nymx.json",
            LoginError::Incomplete => "Username and host are required",
        }
    }
}

/// The host and the user in a host setting: what follows the first `@`, and what precedes it; without
/// one there is no user.
pub open spec fn host_parts(setting: Seq<char>) -> (Seq<char>, Seq<char>) {
    match first_index(setting, '@') {
        Some(at) => (setting.skip(at + 1), setting.take(at)),
        None => (setting, Seq::empty()),
    }
}

/// The host and the user in a host setting.
pub fn parse_host(setting: &str) -> (r: (String, String))
    ensures
        (r.0@, r.1@) == host_parts(setting@),
{
    let chars = to_chars(setting);
    let len: usize = chars.len();
    let mut at: usize = 0;
    while at < len && chars[at] != '@'
        invariant
            at <= len,
            len == chars@.len(),
            chars@ == setting@,
            forall|i: int| 0 <= i < at ==> chars@[i] != '@',
        decreases len - at,
    {
        at = at + 1;
    }
    proof {
        crate::text::lemma_first_index_is(setting@, '@');
    }
    if at < len {
        let user: &[char] = slice_subrange(chars.as_slice(), 0, at);
        let host: &[char] = slice_subrange(chars.as_slice(), at + 1, len);
        assert(user@ =~= setting@.take(at as int));
        assert(host@ =~= setting@.skip(at + 1));
        (from_chars(host), from_chars(user))
    } else {
        let none = String::new();
        assert(none@ =~= Seq::empty());
        (owned(setting), none)
    }
}

/// Who logs in where.
pub struct Login {
    pub host: String,
    pub username: String,
}

/// What is known of a login from the settings.
pub enum LoginPlan {
    /// No host is set.
    NoHost,
    /// The user is to be asked for the name to log in with at this host.
    AskUsername(String),
    /// Both are known.
    Known(Login),
}

/// What is known of a login from the settings: the host, and the user from the host setting or else
/// from their own.
pub fn plan_login(config: &NymxConfig) -> (plan: LoginPlan)
    ensures
        match optional_text(config.host) {
            None => plan is NoHost,
            Some(setting) => {
                let (host, user) = host_parts(setting);
                match plan {
                    LoginPlan::NoHost => false,
                    LoginPlan::AskUsername(h) => user.len() == 0 && config.username is None && h@
                        == host,
                    LoginPlan::Known(login) => {
                        &&& login.host@ == host
                        &&& if user.len() > 0 {
                            login.username@ == user
                        } else {
                            optional_text(config.username) == Some(login.username@)
                        }
                    },
                }
            },
        },
{
    match &config.host {
        None => LoginPlan::NoHost,
        Some(setting) => {
            let (host, user) = parse_host(setting.as_str());
            if !user.as_str().is_empty() {
                return LoginPlan::Known(Login { host, username: user });
            }
            match &config.username {
                Some(username) => LoginPlan::Known(
                    Login { host, username: owned(username.as_str()) },
                ),
                None => LoginPlan::AskUsername(host),
            }
        },
    }
}

/// The login, if it is complete.
pub fn check_login(login: Login) -> (result: Result<Login, LoginError>)
    ensures
        match result {
            Ok(l) => l == login && login.host@.len() > 0 && login.username@.len() > 0,
            Err(e) => e is Incomplete && (login.host@.len() == 0 || login.username@.len() == 0),
        },
{
    if login.username.as_str().is_empty() || login.host.as_str().is_empty() {
        return Err(LoginError::Incomplete);
    }
    Ok(login)
}

/// The port of the server.
pub fn port_of(config: &NymxConfig) -> (port: u16)
    ensures
        port == match config.port {
            Some(port) => port,
            None => DEFAULT_PORT,
        },
        config.port is None ==> port == 22,
{
    match config.port {
        Some(port) => port,
        None => DEFAULT_PORT,
    }
}

// ---------------------------------------------------------------------------------------------
// Questions
// ---------------------------------------------------------------------------------------------

/// The directory of the received files of a user.
pub fn remote_dir(username: &str) -> (dir: String)
    ensures
        dir@ == "/home/"@ + username@ + "/received"@,
{
    let mut dir = joined("/home/", username);
    dir.push_str("/received");
    dir
}

/// The path of a file in a directory.
pub fn remote_path(dir: &str, filename: &str) -> (path: String)
    ensures
        path@ == dir@ + "/"@ + filename@,
{
    let mut path = joined(dir, "/");
    path.push_str(filename);
    path
}

/// Asks whether a directory is there.
pub fn check_dir_command(dir: &str) -> (command: String)
    ensures
        command@ == "test -d "@ + dir@ + " && echo 'exists' || echo 'not'"@,
{
    let mut command = joined("test -d ", dir);
    command.push_str(" && echo 'exists' || echo 'not'");
    command
}

/// Asks which files of a directory are in use.
pub fn in_use_command(dir: &str) -> (command: String)
    ensures
        command@ == "lsof +D "@ + dir@ + " | awk 'NR >1 {print $9}' | sort -u"@,
{
    let mut command = joined("lsof +D ", dir);
    command.push_str(" | awk 'NR >1 {print $9}' | sort -u");
    command
}

/// Asks for the names of the files of a directory.
pub fn list_command(dir: &str) -> (command: String)
    ensures
        command@ == "find "@ + dir@ + " -maxdepth 1 -type f -printf '%f\n'"@,
{
    let mut command = joined("find ", dir);
    command.push_str(" -maxdepth 1 -type f -printf '%f\n'");
    command
}

/// Asks for the size of a file.
pub fn size_command(path: &str) -> (command: String)
    ensures
        command@ == "stat -c %s "@ + path@,
{
    joined("stat -c %s ", path)
}

/// Deletes a file.
pub fn delete_command(path: &str) -> (command: String)
    ensures
        command@ == "rm -f "@ + path@,
{
    joined("rm -f ", path)
}

// ---------------------------------------------------------------------------------------------
// Answers
// ---------------------------------------------------------------------------------------------

/// Whether a directory is there.
pub fn dir_exists(output: &str) -> (r: bool)
    ensures
        r == (trim(output@) == "exists"@),
{
    same_chars(trim_chars(to_chars(output).as_slice()), to_chars("exists").as_slice())
}

/// The lines that have content, in order.
pub open spec fn filled_lines(lines: Seq<Seq<char>>) -> Seq<Seq<char>>
    decreases lines.len(),
{
    if lines.len() == 0 {
        Seq::empty()
    } else if lines.last().len() > 0 {
        filled_lines(lines.drop_last()).push(lines.last())
    } else {
        filled_lines(lines.drop_last())
    }
}

/// The names of the files, in the order of the answer.
pub fn list_remote_files(output: &str) -> (files: Vec<String>)
    ensures
        texts(files@) == filled_lines(lines(output@)),
{
    let all = split_lines(to_chars(output).as_slice());
    let mut files: Vec<String> = Vec::new();
    let mut i: usize = 0;
    assert(texts(files@) =~= Seq::empty());
    while i < all.len()
        invariant
            i <= all@.len(),
            texts(all@) == lines(output@),
            texts(files@) == filled_lines(lines(output@).take(i as int)),
        decreases all.len() - i,
    {
        let ghost done = lines(output@).take(i + 1);
        assert(done.drop_last() =~= lines(output@).take(i as int));
        assert(done.last() == all@[i as int]@);
        if !all[i].as_str().is_empty() {
            let ghost before = texts(files@);
            files.push(owned(all[i].as_str()));
            assert(texts(files@) =~= before.push(all@[i as int]@));
        }
        i = i + 1;
    }
    assert(lines(output@).take(i as int) =~= lines(output@));
    files
}

/// Whether a line is an absolute path.
pub open spec fn is_absolute(line: Seq<char>) -> bool {
    line.len() > 0 && line[0] == '/'
}

/// The paths of the files that are in use: the absolute paths in the answer, each once.
pub fn get_in_use_files(output: &str) -> (paths: Vec<String>)
    ensures
        texts(paths@).no_duplicates(),
        forall|path: Seq<char>| #[trigger]
            texts(paths@).contains(path) <==> lines(output@).contains(path) && is_absolute(path),
{
    let all = split_lines(to_chars(output).as_slice());
    let mut paths: Vec<String> = Vec::new();
    let mut i: usize = 0;
    while i < all.len()
        invariant
            i <= all@.len(),
            texts(all@) == lines(output@),
            texts(paths@).no_duplicates(),
            forall|path: Seq<char>| #[trigger]
                texts(paths@).contains(path) <==> is_absolute(path) && exists|j: int|
                    0 <= j < i && #[trigger] texts(all@)[j] == path,
        decreases all.len() - i,
    {
        let line = to_chars(all[i].as_str());
        let ghost before = texts(paths@);
        assert(texts(all@)[i as int] == line@);
        if line.len() > 0 && line[0] == '/' && !contains_text(&paths, all[i].as_str()) {
            paths.push(owned(all[i].as_str()));
            proof {
                let after = texts(paths@);
                assert(after =~= before.push(line@));
                assert forall|path: Seq<char>| #[trigger]
                    after.contains(path) <==> before.contains(path) || path == line@ by {
                    if before.contains(path) {
                        let k = choose|k: int| 0 <= k < before.len() && before[k] == path;
                        assert(after[k] == path);
                    }
                    if path == line@ {
                        assert(after[before.len() as int] == path);
                    }
                    if after.contains(path) && path != line@ {
                        let k = choose|k: int| 0 <= k < after.len() && after[k] == path;
                        assert(before[k] == path);
                    }
                }
            }
        }
        proof {
            let now = texts(paths@);
            assert forall|path: Seq<char>| #[trigger] now.contains(path) <==> is_absolute(path)
                && exists|j: int| 0 <= j < i + 1 && #[trigger] texts(all@)[j] == path by {
                if exists|j: int| 0 <= j < i + 1 && #[trigger] texts(all@)[j] == path {
                    let j = choose|j: int| 0 <= j < i + 1 && #[trigger] texts(all@)[j] == path;
                    if j < i && is_absolute(path) {
                        assert(before.contains(path));
                    }
                }
                if before.contains(path) {
                    let j = choose|j: int| 0 <= j < i && #[trigger] texts(all@)[j] == path;
                    assert(0 <= j < i + 1 && texts(all@)[j] == path);
                }
            }
        }
        i = i + 1;
    }
    paths
}

/// Whether a file is in use: one of the paths ends with its name.
pub open spec fn in_use(paths: Seq<Seq<char>>, filename: Seq<char>) -> bool {
    exists|i: int| 0 <= i < paths.len() && filename.is_suffix_of(#[trigger] paths[i])
}

/// Whether a file is in use.
pub fn is_in_use(paths: &Vec<String>, filename: &str) -> (r: bool)
    ensures
        r == in_use(texts(paths@), filename@),
        r <==> exists|i: int|
            0 <= i < paths@.len() && filename@.is_suffix_of((#[trigger] paths@[i])@),
{
    let mut i: usize = 0;
    while i < paths.len()
        invariant
            i <= paths@.len(),
            forall|j: int|
                0 <= j < i ==> !filename@.is_suffix_of(#[trigger] texts(paths@)[j]),
        decreases paths.len() - i,
    {
        assert(texts(paths@)[i as int] == paths@[i as int]@);
        if ends_with(paths[i].as_str(), filename) {
            assert(filename@.is_suffix_of(paths@[i as int]@));
            return true;
        }
        i = i + 1;
    }
    proof {
        assert forall|j: int| 0 <= j < paths@.len() implies !filename@.is_suffix_of(
            (#[trigger] paths@[j])@,
        ) by {
            assert(texts(paths@)[j] == paths@[j]@);
        }
    }
    false
}

/// The size of a file, if the answer is a number of 64 bits.
pub fn get_file_size_remote(output: &str) -> (size: Option<u64>)
    ensures
        match parse_unsigned(trim(output@), u64::MAX as nat) {
            Some(n) => size == Some(n as u64),
            None => size is None,
        },
{
    parse_number(trim_chars(to_chars(output).as_slice()), u64::MAX)
}

// ---------------------------------------------------------------------------------------------
// What came of it
// ---------------------------------------------------------------------------------------------

/// What became of a file.
#[derive(Debug, Clone, Copy, PartialEq, Eq, Structural)]
pub enum Fetched {
    /// It was in use.
    Skipped,
    /// It could not be downloaded.
    NotDownloaded,
    /// It was downloaded, but could not be deleted on the server.
    NotDeleted,
    /// It was downloaded and deleted on the server.
    Moved,
}

/// What is to be done about a file.
#[derive(Debug, Clone, Copy, PartialEq, Eq, Structural)]
pub enum FetchStep {
    /// It is to be downloaded.
    Download,
    /// It is to be deleted on the server.
    Delete,
    /// Nothing more.
    Done(Fetched),
}

/// What is to be done about a file, from what came of the steps that were taken: one that is in use is
/// left alone, and one that was downloaded is deleted.
pub open spec fn step_after(
    in_use: bool,
    downloaded: Option<bool>,
    deleted: Option<bool>,
) -> FetchStep {
    if in_use {
        FetchStep::Done(Fetched::Skipped)
    } else if downloaded is None {
        FetchStep::Download
    } else if downloaded == Some(false) {
        FetchStep::Done(Fetched::NotDownloaded)
    } else if deleted is None {
        FetchStep::Delete
    } else if deleted == Some(false) {
        FetchStep::Done(Fetched::NotDeleted)
    } else {
        FetchStep::Done(Fetched::Moved)
    }
}

/// What is to be done about a file. `downloaded` and `deleted` say whether these steps succeeded, as far
/// as they were taken.
pub fn next_step(in_use: bool, downloaded: Option<bool>, deleted: Option<bool>) -> (step: FetchStep)
    ensures
        step == step_after(in_use, downloaded, deleted),
{
    if in_use {
        return FetchStep::Done(Fetched::Skipped);
    }
    match downloaded {
        None => FetchStep::Download,
        Some(false) => FetchStep::Done(Fetched::NotDownloaded),
        Some(true) => match deleted {
            None => FetchStep::Delete,
            Some(false) => FetchStep::Done(Fetched::NotDeleted),
            Some(true) => FetchStep::Done(Fetched::Moved),
        },
    }
}

/// A file is deleted on the server only after it was downloaded, and nothing is done to one that is in
/// use.
pub proof fn law_deleted_only_after_download(
    in_use: bool,
    downloaded: Option<bool>,
    deleted: Option<bool>,
)
    ensures
        step_after(in_use, downloaded, deleted) is Delete ==> !in_use && downloaded == Some(true),
        step_after(in_use, downloaded, deleted) is Download ==> !in_use && downloaded is None,
{
}

/// All that is done to a file, where `can_download` and `can_delete` say whether these steps succeed.
pub open spec fn course(
    in_use: bool,
    can_download: bool,
    can_delete: bool,
    downloaded: Option<bool>,
    deleted: Option<bool>,
    steps: nat,
) -> Seq<FetchStep>
    decreases steps,
{
    let step = step_after(in_use, downloaded, deleted);
    if steps == 0 {
        Seq::empty()
    } else {
        match step {
            FetchStep::Download => seq![step] + course(
                in_use,
                can_download,
                can_delete,
                Some(can_download),
                deleted,
                (steps - 1) as nat,
            ),
            FetchStep::Delete => seq![step] + course(
                in_use,
                can_download,
                can_delete,
                downloaded,
                Some(can_delete),
                (steps - 1) as nat,
            ),
            FetchStep::Done(_) => seq![step],
        }
    }
}

/// The course of a file is one of four: it is skipped; it is tried and not downloaded; it is downloaded
/// and tried and not deleted; or it is downloaded and deleted. What is said of it in the end is what was
/// done.
pub proof fn law_course_of_a_file(in_use: bool, can_download: bool, can_delete: bool)
    ensures
        course(in_use, can_download, can_delete, None, None, 3) == if in_use {
            seq![FetchStep::Done(Fetched::Skipped)]
        } else if !can_download {
            seq![FetchStep::Download, FetchStep::Done(Fetched::NotDownloaded)]
        } else if !can_delete {
            seq![FetchStep::Download, FetchStep::Delete, FetchStep::Done(Fetched::NotDeleted)]
        } else {
            seq![FetchStep::Download, FetchStep::Delete, FetchStep::Done(Fetched::Moved)]
        },
{
    reveal_with_fuel(course, 4);
}

/// What became of the files.
#[derive(Debug, Clone, Copy, PartialEq, Eq, Structural)]
pub struct Tally {
    pub downloaded: usize,
    pub failed: usize,
    pub deleted: usize,
    pub skipped: usize,
}

/// How many of the files a kind of outcome came to.
pub open spec fn count_of(outcomes: Seq<Fetched>, what: Fetched) -> nat
    decreases outcomes.len(),
{
    if outcomes.len() == 0 {
        0
    } else if outcomes.last() == what {
        count_of(outcomes.drop_last(), what) + 1
    } else {
        count_of(outcomes.drop_last(), what)
    }
}

/// Whether a tally is that of some outcomes.
pub open spec fn tallies(tally: Tally, outcomes: Seq<Fetched>) -> bool {
    &&& tally.downloaded == count_of(outcomes, Fetched::Moved) + count_of(
        outcomes,
        Fetched::NotDeleted,
    )
    &&& tally.failed == count_of(outcomes, Fetched::NotDownloaded) + count_of(
        outcomes,
        Fetched::NotDeleted,
    )
    &&& tally.deleted == count_of(outcomes, Fetched::Moved)
    &&& tally.skipped == count_of(outcomes, Fetched::Skipped)
}

/// The tally with one more file.
pub open spec fn tallied(tally: Tally, what: Fetched) -> Tally {
    match what {
        Fetched::Skipped => Tally { skipped: (tally.skipped + 1) as usize, ..tally },
        Fetched::NotDownloaded => Tally { failed: (tally.failed + 1) as usize, ..tally },
        Fetched::NotDeleted => Tally {
            downloaded: (tally.downloaded + 1) as usize,
            failed: (tally.failed + 1) as usize,
            ..tally
        },
        Fetched::Moved => Tally {
            downloaded: (tally.downloaded + 1) as usize,
            deleted: (tally.deleted + 1) as usize,
            ..tally
        },
    }
}

impl Tally {
    /// No file was looked at yet.
    pub fn new() -> (tally: Tally)
        ensures
            tally == (Tally { downloaded: 0, failed: 0, deleted: 0, skipped: 0 }),
            tallies(tally, Seq::empty()),
    {
        Tally { downloaded: 0, failed: 0, deleted: 0, skipped: 0 }
    }

    /// One more file was looked at.
    pub fn record(&mut self, what: Fetched)
        requires
            what is Skipped ==> old(self).skipped < usize::MAX,
            what is NotDownloaded || what is NotDeleted ==> old(self).failed < usize::MAX,
            what is NotDeleted || what is Moved ==> old(self).downloaded < usize::MAX,
            what is Moved ==> old(self).deleted < usize::MAX,
        ensures
            *final(self) == tallied(*old(self), what),
    {
        match what {
            Fetched::Skipped => {
                self.skipped = self.skipped + 1;
            },
            Fetched::NotDownloaded => {
                self.failed = self.failed + 1;
            },
            Fetched::NotDeleted => {
                self.downloaded = self.downloaded + 1;
                self.failed = self.failed + 1;
            },
            Fetched::Moved => {
                self.downloaded = self.downloaded + 1;
                self.deleted = self.deleted + 1;
            },
        }
    }
}

/// The tally that is kept file by file is that of all files.
pub proof fn law_tally_follows(tally: Tally, outcomes: Seq<Fetched>, what: Fetched)
    requires
        tallies(tally, outcomes),
        outcomes.len() < usize::MAX,
    ensures
        tallies(tallied(tally, what), outcomes.push(what)),
{
    law_tally_adds_up(tally, outcomes);
    assert(outcomes.push(what).drop_last() =~= outcomes);
}

/// Every file is counted as skipped, deleted on the server, or failed, and there are no more deleted
/// files than downloaded ones.
pub proof fn law_tally_adds_up(tally: Tally, outcomes: Seq<Fetched>)
    requires
        tallies(tally, outcomes),
    ensures
        tally.skipped + tally.deleted + tally.failed == outcomes.len(),
        tally.deleted <= tally.downloaded <= outcomes.len(),
{
    lemma_counts(outcomes);
}

proof fn lemma_counts(outcomes: Seq<Fetched>)
    ensures
        count_of(outcomes, Fetched::Skipped) + count_of(outcomes, Fetched::NotDownloaded)
            + count_of(outcomes, Fetched::NotDeleted) + count_of(outcomes, Fetched::Moved)
            == outcomes.len(),
    decreases outcomes.len(),
{
    if outcomes.len() > 0 {
        lemma_counts(outcomes.drop_last());
    }
}

// ---------------------------------------------------------------------------------------------
// What holds of settings and answers
// ---------------------------------------------------------------------------------------------

/// A user and a host with an `@` between them are found in the setting; a host alone is found without a
/// user.
pub proof fn law_host_setting(user: Seq<char>, host: Seq<char>)
    requires
        !user.contains('@'),
    ensures
        host_parts(user + "@"@ + host) == (host, user),
        !host.contains('@') ==> host_parts(host) == (host, Seq::<char>::empty()),
{
    reveal_strlit("@");
    let setting = user + "@"@ + host;
    let n = user.len() as int;
    crate::text::lemma_first_index_is(setting, '@');
    assert(setting[n] == '@');
    assert(setting.contains('@'));
    let at = first_index(setting, '@')->0;
    if at < n {
        assert(user[at] == setting[at]);
    }
    assert(setting.skip(n + 1) =~= host);
    assert(setting.take(n) =~= user);
    crate::text::lemma_first_index_is(host, '@');
}

/// A file is in use exactly if the path of some file in use ends with its name, wherever in the list the
/// path stands.
pub proof fn law_in_use(paths: Seq<Seq<char>>, filename: Seq<char>, dir: Seq<char>, i: int)
    requires
        0 <= i < paths.len(),
    ensures
        paths[i] == dir + filename ==> in_use(paths, filename),
        in_use(paths, filename) <==> !(forall|j: int|
            0 <= j < paths.len() ==> !filename.is_suffix_of(#[trigger] paths[j])),
        in_use(paths, filename) == (in_use(paths.take(i), filename) || filename.is_suffix_of(
            paths[i],
        ) || in_use(paths.skip(i + 1), filename)),
{
    if paths[i] == dir + filename {
        let path = paths[i];
        assert(path.subrange(path.len() - filename.len(), path.len() as int) =~= filename);
        assert(filename.is_suffix_of(path));
    }
    let (low, high) = (paths.take(i), paths.skip(i + 1));
    if in_use(paths, filename) {
        let j = choose|j: int| 0 <= j < paths.len() && filename.is_suffix_of(#[trigger] paths[j]);
        if j < i {
            assert(low[j] == paths[j]);
        } else if j > i {
            assert(high[j - i - 1] == paths[j]);
        }
    }
    if in_use(low, filename) {
        let j = choose|j: int| 0 <= j < low.len() && filename.is_suffix_of(#[trigger] low[j]);
        assert(paths[j] == low[j]);
    }
    if in_use(high, filename) {
        let j = choose|j: int| 0 <= j < high.len() && filename.is_suffix_of(#[trigger] high[j]);
        assert(paths[j + i + 1] == high[j]);
    }
}

/// No file is in use where no path is known.
pub proof fn law_nothing_in_use(filename: Seq<char>)
    ensures
        !in_use(Seq::empty(), filename),
{
}

/// Whatever stands before and after it, a line with content is listed, and one without is not.
pub proof fn law_filled_lines(first: Seq<Seq<char>>, second: Seq<Seq<char>>, line: Seq<char>)
    ensures
        filled_lines(first + second) == filled_lines(first) + filled_lines(second),
        line.len() > 0 ==> filled_lines(seq![line]) == seq![line],
        line.len() == 0 ==> filled_lines(seq![line]) == Seq::<Seq<char>>::empty(),
        filled_lines(Seq::empty()) == Seq::<Seq<char>>::empty(),
    decreases second.len(),
{
    reveal_with_fuel(filled_lines, 2);
    assert(seq![line].drop_last() =~= Seq::empty());
    if second.len() > 0 {
        law_filled_lines(first, second.drop_last(), line);
        assert((first + second).drop_last() =~= first + second.drop_last());
        assert(filled_lines(first + second) =~= filled_lines(first) + filled_lines(second));
    } else {
        assert(first + second =~= first);
        assert(filled_lines(first) + filled_lines(second) =~= filled_lines(first));
    }
}

/// The names that the server lists, a line for each, are the names that are read, in the same order.
pub proof fn law_listed_files_are_read(names: Seq<Seq<char>>)
    requires
        forall|i: int|
            0 <= i < names.len() ==> (#[trigger] names[i]).len() > 0 && crate::text_laws::is_line(
                names[i],
            ),
    ensures
        filled_lines(lines(crate::text_laws::with_line_feeds(names))) == names,
{
    crate::text_laws::law_lines_round_trip(names);
    lemma_all_filled(names);
}

proof fn lemma_all_filled(names: Seq<Seq<char>>)
    requires
        forall|i: int| 0 <= i < names.len() ==> (#[trigger] names[i]).len() > 0,
    ensures
        filled_lines(names) == names,
    decreases names.len(),
{
    if names.len() > 0 {
        let rest = names.drop_last();
        assert forall|i: int| 0 <= i < rest.len() implies (#[trigger] rest[i]).len() > 0 by {
            assert(names[i].len() > 0);
        }
        lemma_all_filled(rest);
        assert(names[names.len() - 1].len() > 0);
        assert(rest.push(names.last()) =~= names);
    } else {
        assert(names =~= Seq::empty());
    }
}

/// A path is absolute exactly if it starts with a slash.
pub proof fn law_absolute_paths(line: Seq<char>)
    ensures
        is_absolute(line) <==> "/"@.is_prefix_of(line),
{
    reveal_strlit("/");
    if "/"@.is_prefix_of(line) {
        assert(line[0] == "/"@[0]);
    }
    if is_absolute(line) {
        assert("/"@ =~= line.subrange(0, 1));
    }
}

/// The size that the server gives as a numeral, with white space around it, is the size that is read.
pub proof fn law_size_is_read(before: Seq<char>, size: u64, after: Seq<char>)
    requires
        crate::text_laws::all_white(before),
        crate::text_laws::all_white(after),
    ensures
        parse_unsigned(
            trim(before + crate::text::decimal(size as nat) + after),
            u64::MAX as nat,
        ) == Some(size as nat),
{
    let numeral = crate::text::decimal(size as nat);
    crate::text_laws::lemma_decimal(size as nat);
    assert(crate::text::is_digit(numeral[0]));
    assert(crate::text::is_digit(numeral[numeral.len() - 1]));
    crate::text_laws::law_trimming(before, numeral, after);
    crate::text_laws::law_numerals_are_read(size as nat, u64::MAX as nat, Seq::empty());
    assert(Seq::<char>::empty() + numeral =~= numeral);
}

/// What is counted as an outcome is how often it occurs.
pub proof fn law_count_of_outcomes(outcomes: Seq<Fetched>, more: Seq<Fetched>, what: Fetched)
    ensures
        count_of(outcomes + more, what) == count_of(outcomes, what) + count_of(more, what),
        count_of(seq![what], what) == 1,
        forall|other: Fetched| other != what ==> #[trigger] count_of(seq![other], what) == 0,
        count_of(Seq::empty(), what) == 0,
    decreases more.len(),
{
    reveal_with_fuel(count_of, 2);
    if more.len() > 0 {
        law_count_of_outcomes(outcomes, more.drop_last(), what);
        assert((outcomes + more).drop_last() =~= outcomes + more.drop_last());
    } else {
        assert(outcomes + more =~= outcomes);
    }
}

/// A file that is downloaded and deleted counts for both, one that could not be deleted as downloaded and
/// failed, one that could not be downloaded as failed, and one that was in use as skipped.
pub proof fn law_one_more_file(tally: Tally, what: Fetched)
    requires
        tally.downloaded < usize::MAX,
        tally.failed < usize::MAX,
        tally.deleted < usize::MAX,
        tally.skipped < usize::MAX,
    ensures
        ({
            let after = tallied(tally, what);
            &&& after.downloaded - tally.downloaded == if what is Moved || what is NotDeleted {
                1int
            } else {
                0
            }
            &&& after.deleted - tally.deleted == if what is Moved {
                1int
            } else {
                0
            }
            &&& after.failed - tally.failed == if what is NotDeleted || what is NotDownloaded {
                1int
            } else {
                0
            }
            &&& after.skipped - tally.skipped == if what is Skipped {
                1int
            } else {
                0
            }
        }),
{
}

/// Nothing more is done to a file that is in use, or that could not be downloaded, whatever else is known
/// of it; one of which nothing is known is downloaded.
pub proof fn law_files_left_alone(downloaded: Option<bool>, deleted: Option<bool>)
    ensures
        step_after(true, downloaded, deleted) == FetchStep::Done(Fetched::Skipped),
        step_after(false, Some(false), deleted) == FetchStep::Done(Fetched::NotDownloaded),
        step_after(false, None, deleted) == FetchStep::Download,
        step_after(false, Some(true), None) == FetchStep::Delete,
        step_after(false, Some(true), Some(false)) == FetchStep::Done(Fetched::NotDeleted),
        step_after(false, Some(true), Some(true)) == FetchStep::Done(Fetched::Moved),
{
}

/// What is said of a login that cannot be made tells which of the two is missing.
pub proof fn law_login_errors_are_told_apart(first: LoginError, second: LoginError)
    requires
        first.text() == second.text(),
    ensures
        first == second,
{
    reveal_strlit("No host specified. Provide it via nymx.json");
    reveal_strlit("Username and host are required");
    assert("No host specified. Provide it via nymx.json"@.len() == 43);
    assert("Username and host are required"@.len() == 30);
}

} // verus!
