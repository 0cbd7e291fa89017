//! The window: what it shows, and what its buttons do.
use vstd::prelude::*;
use vstd::slice::slice_subrange;
use crate::config::{address_for, Config};
use crate::string_map::ascending;
use crate::text::{
    find_last, from_chars, is_digit, last_index, owned, same_text, texts, to_chars, trim,
    trim_chars,
};

verus! {

/// What the window is there for at the moment.
#[derive(Debug, Clone, Copy, PartialEq, Eq, Structural)]
pub enum Action {
    Send,
    Receive,
}

/// The state of the window.
pub struct NymXApp {
    pub nymx_config: Config,
    pub sorted_nymx_aliases: Vec<String>,
    pub selected_nymx_alias: String,
    pub action: Action,
    pub file_path: String,
    pub mode_parts: bool,
    pub receive_path: String,
    pub log: String,
    pub is_running: bool,
    pub dark_mode: bool,
    pub show_add_contact: bool,
    pub show_about: bool,
    pub show_delete_confirmation: bool,
    pub new_alias: String,
    pub new_address: String,
    pub contact_to_delete: String,
}

/// What the state of the window stands for.
pub struct Window {
    pub contacts: Map<Seq<char>, Seq<char>>,
    pub aliases: Seq<Seq<char>>,
    pub selected: Seq<char>,
    pub action: Action,
    pub file_path: Seq<char>,
    pub mode_parts: bool,
    pub receive_path: Seq<char>,
    pub log: Seq<char>,
    pub is_running: bool,
    pub dark_mode: bool,
    pub show_add_contact: bool,
    pub show_about: bool,
    pub show_delete_confirmation: bool,
    pub new_alias: Seq<char>,
    pub new_address: Seq<char>,
    pub contact_to_delete: Seq<char>,
}

impl View for NymXApp {
    type V = Window;

    open spec fn view(&self) -> Window {
        Window {
            contacts: self.nymx_config@,
            aliases: texts(self.sorted_nymx_aliases@),
            selected: self.selected_nymx_alias@,
            action: self.action,
            file_path: self.file_path@,
            mode_parts: self.mode_parts,
            receive_path: self.receive_path@,
            log: self.log@,
            is_running: self.is_running,
            dark_mode: self.dark_mode,
            show_add_contact: self.show_add_contact,
            show_about: self.show_about,
            show_delete_confirmation: self.show_delete_confirmation,
            new_alias: self.new_alias@,
            new_address: self.new_address@,
            contact_to_delete: self.contact_to_delete@,
        }
    }
}

/// Whether a list holds the aliases of the contacts, in order.
pub open spec fn lists(aliases: Seq<Seq<char>>, contacts: Map<Seq<char>, Seq<char>>) -> bool {
    ascending(aliases) && forall|alias: Seq<char>| #[trigger]
        aliases.contains(alias) <==> contacts.contains_key(alias)
}

/// The first alias, or none.
pub open spec fn first_alias(aliases: Seq<Seq<char>>) -> Seq<char> {
    if aliases.len() > 0 {
        aliases[0]
    } else {
        Seq::empty()
    }
}

/// The window with another line in its log.
pub open spec fn logged(w: Window, line: Seq<char>) -> Window {
    Window { log: w.log + line, ..w }
}

/// The line about settings that were saved, or not.
pub open spec fn save_line(error: Option<String>) -> Seq<char> {
    match error {
        Some(e) => "[ERROR] Failed to save config: "@ + e@ + "\n"@,
        None => "[INFO] Config saved successfully.\n"@,
    }
}

/// A text without the decimal digits at its end.
pub open spec fn without_digits(s: Seq<char>) -> Seq<char>
    decreases s.len(),
{
    if s.len() > 0 && is_digit(s.last()) {
        without_digits(s.drop_last())
    } else {
        s
    }
}

/// What the names of all parts start with, given the name of one: without what follows the last dot,
/// and without the digits before it.
pub open spec fn part_prefix(file_name: Seq<char>) -> Seq<char> {
    match last_index(file_name, '.') {
        Some(dot) => without_digits(file_name.take(dot)),
        None => without_digits(file_name),
    }
}

/// What the names of all parts start with, given the name of one.
pub fn part_prefix_of(file_name: &str) -> (prefix: String)
    ensures
        prefix@ == part_prefix(file_name@),
{
    let chars = to_chars(file_name);
    let mut end: usize = match find_last(chars.as_slice(), '.') {
        Some(dot) => dot,
        None => chars.len(),
    };
    let ghost stem = chars@.take(end as int);
    proof {
        if last_index(file_name@, '.') is None {
            assert(stem =~= file_name@);
        }
        assert(part_prefix(file_name@) == without_digits(stem));
    }
    while end > 0 && '0' <= chars[end - 1] && chars[end - 1] <= '9'
        invariant
            end <= chars@.len(),
            without_digits(stem) == without_digits(chars@.take(end as int)),
        decreases end,
    {
        assert(chars@.take(end as int).drop_last() =~= chars@.take(end - 1));
        end = end - 1;
    }
    let prefix: &[char] = slice_subrange(chars.as_slice(), 0, end);
    assert(prefix@ =~= chars@.take(end as int));
    from_chars(prefix)
}

/// The folder and the prefix of parts, given where one of them is: the folder that it is in, or the
/// current one, and what the names of all of them start with.
pub fn extract_prefix_and_folder(parent: &Option<String>, file_name: &Option<String>) -> (r: (
    String,
    String,
))
    ensures
        r.0@ == match *parent {
            Some(folder) => folder@,
            None => "."@,
        },
        r.1@ == part_prefix(
            match *file_name {
                Some(name) => name@,
                None => Seq::empty(),
            },
        ),
{
    let folder = match parent {
        Some(folder) => owned(folder.as_str()),
        None => owned("."),
    };
    let prefix = match file_name {
        Some(name) => part_prefix_of(name.as_str()),
        None => {
            let none = String::new();
            assert(none@ =~= Seq::empty());
            part_prefix_of(none.as_str())
        },
    };
    (folder, prefix)
}

/// What is to be done when the start button is pressed.
pub enum StartPlan {
    /// Nothing.
    Nothing,
    /// A file is to be sent.
    SendFile { address: String, path: String },
    /// The parts in a folder are to be sent, if the folder is there.
    SendParts { address: String, folder: String, prefix: String },
    /// Files are to be received in a folder, which is created if it is not there.
    Receive { path: String },
}

fn blank(s: &str) -> (r: bool)
    ensures
        r == (trim(s@).len() == 0),
{
    trim_chars(to_chars(s).as_slice()).len() == 0
}

impl NymXApp {
    /// The list of aliases is that of the contacts, in order.
    pub open spec fn wf(self) -> bool {
        self.nymx_config.wf() && lists(self@.aliases, self@.contacts)
    }

    /// The window as it opens.
    pub fn new(nymx_config: Config) -> (app: NymXApp)
        requires
            nymx_config.wf(),
        ensures
            app.wf(),
            app@ == (Window {
                contacts: nymx_config@,
                aliases: app@.aliases,
                selected: first_alias(app@.aliases),
                action: Action::Send,
                file_path: Seq::empty(),
                mode_parts: false,
                receive_path: "./received"@,
                log: "NymX ready.\n"@,
                is_running: false,
                dark_mode: true,
                show_add_contact: false,
                show_about: false,
                show_delete_confirmation: false,
                new_alias: Seq::empty(),
                new_address: Seq::empty(),
                contact_to_delete: Seq::empty(),
            }),
    {
        let sorted_nymx_aliases = nymx_config.aliases.sorted_keys();
        let selected_nymx_alias = first_of(&sorted_nymx_aliases);
        let app = NymXApp {
            nymx_config,
            sorted_nymx_aliases,
            selected_nymx_alias,
            action: Action::Send,
            file_path: String::new(),
            mode_parts: false,
            receive_path: owned("./received"),
            log: owned("NymX ready.\n"),
            is_running: false,
            dark_mode: true,
            show_add_contact: false,
            show_about: false,
            show_delete_confirmation: false,
            new_alias: String::new(),
            new_address: String::new(),
            contact_to_delete: String::new(),
        };
        assert(app@.file_path =~= Seq::empty());
        assert(app@.new_alias =~= Seq::empty());
        assert(app@.new_address =~= Seq::empty());
        assert(app@.contact_to_delete =~= Seq::empty());
        app
    }

    // -----------------------------------------------------------------------------------------
    // The task
    // -----------------------------------------------------------------------------------------

    /// The task has come to its end.
    pub fn task_finished(&mut self)
        requires
            old(self).wf(),
        ensures
            final(self).wf(),
            final(self)@ == (Window { is_running: false, ..old(self)@ }),
    {
        self.is_running = false;
    }

    /// The task says something: a line for the log, or that it is done. The result says whether the
    /// window is to be drawn anew.
    pub fn task_message(&mut self, message: &str) -> (redraw: bool)
        requires
            old(self).wf(),
        ensures
            final(self).wf(),
            redraw == (message@ != "__DONE__"@),
            final(self)@ == if redraw {
                logged(old(self)@, message@ + "\n"@)
            } else {
                Window { is_running: false, ..old(self)@ }
            },
    {
        if same_text(message, "__DONE__") {
            self.is_running = false;
            return false;
        }
        self.log.push_str(message);
        self.log.push_str("\n");
        assert(self@.log =~= old(self)@.log + (message@ + "\n"@));
        true
    }

    /// Whether the start button can be pressed: no task is running, and what the task needs is given.
    /// For parts their folder has to be there.
    pub fn start_enabled(&self, task_active: bool, folder_exists: bool) -> (r: bool)
        ensures
            r == {
                &&& !self@.is_running
                &&& !task_active
                &&& match self@.action {
                    Action::Send => {
                        &&& trim(self@.file_path).len() > 0
                        &&& self@.selected.len() > 0
                        &&& self@.mode_parts ==> folder_exists
                    },
                    Action::Receive => trim(self@.receive_path).len() > 0,
                }
            },
    {
        if self.is_running || task_active {
            return false;
        }
        match self.action {
            Action::Send => !blank(self.file_path.as_str())
                && !self.selected_nymx_alias.as_str().is_empty() && (!self.mode_parts
                || folder_exists),
            Action::Receive => !blank(self.receive_path.as_str()),
        }
    }

    /// The start button is pressed. `parent` and `file_name` are the folder and the name in the path of
    /// the file, as far as it has them.
    pub fn start_action(
        &mut self,
        task_active: bool,
        parent: &Option<String>,
        file_name: &Option<String>,
    ) -> (plan: StartPlan)
        requires
            old(self).wf(),
        ensures
            final(self).wf(),
            final(self)@ == if !old(self)@.is_running && task_active {
                logged(
                    old(self)@,
                    "[WARN] Previous thread still active. Please wait.\n"@,
                )
            } else {
                old(self)@
            },
            ({
                let w = old(self)@;
                let address = address_for(w.contacts, w.selected);
                match plan {
                    StartPlan::Nothing => w.is_running || task_active,
                    StartPlan::SendFile { address: a, path } => {
                        &&& !w.is_running && !task_active && w.action is Send && !w.mode_parts
                        &&& a@ == address
                        &&& path@ == w.file_path
                    },
                    StartPlan::SendParts { address: a, folder, prefix } => {
                        &&& !w.is_running && !task_active && w.action is Send && w.mode_parts
                        &&& a@ == address
                        &&& folder@ == match *parent {
                            Some(folder) => folder@,
                            None => "."@,
                        }
                        &&& prefix@ == part_prefix(
                            match *file_name {
                                Some(name) => name@,
                                None => Seq::empty(),
                            },
                        )
                    },
                    StartPlan::Receive { path } => {
                        &&& !w.is_running && !task_active && w.action is Receive
                        &&& path@ == w.receive_path
                    },
                }
            }),
    {
        if self.is_running {
            return StartPlan::Nothing;
        }
        if task_active {
            self.log.push_str("[WARN] Previous thread still active. Please wait.\n");
            return StartPlan::Nothing;
        }
        match self.action {
            Action::Send => {
                let address = self.nymx_config.address_of(self.selected_nymx_alias.as_str());
                if self.mode_parts {
                    let (folder, prefix) = extract_prefix_and_folder(parent, file_name);
                    StartPlan::SendParts { address, folder, prefix }
                } else {
                    StartPlan::SendFile { address, path: owned(self.file_path.as_str()) }
                }
            },
            Action::Receive => StartPlan::Receive { path: owned(self.receive_path.as_str()) },
        }
    }

    /// The folder for received files could not be created.
    pub fn receive_folder_failed(&mut self, error: &str)
        requires
            old(self).wf(),
        ensures
            final(self).wf(),
            final(self)@ == logged(
                old(self)@,
                "[ERROR] Cannot create receive folder: "@ + error@ + "\n"@,
            ),
    {
        self.log.push_str("[ERROR] Cannot create receive folder: ");
        self.log.push_str(error);
        self.log.push_str("\n");
        assert(self@.log =~= old(self)@.log + ("[ERROR] Cannot create receive folder: "@ + error@
            + "\n"@));
    }

    /// The folder of the parts is not there.
    pub fn folder_missing(&mut self, folder: &str)
        requires
            old(self).wf(),
        ensures
            final(self).wf(),
            final(self)@ == logged(
                old(self)@,
                "[ERROR] Folder '"@ + folder@ + "' does not exist.\n"@,
            ),
    {
        self.log.push_str("[ERROR] Folder '");
        self.log.push_str(folder);
        self.log.push_str("' does not exist.\n");
        assert(self@.log =~= old(self)@.log + ("[ERROR] Folder '"@ + folder@
            + "' does not exist.\n"@));
    }

    /// The task starts.
    pub fn task_started(&mut self)
        requires
            old(self).wf(),
        ensures
            final(self).wf(),
            final(self)@ == (Window {
                is_running: true,
                ..logged(old(self)@, "[INFO] Starting task…\n"@)
            }),
    {
        self.is_running = true;
        self.log.push_str("[INFO] Starting task…\n");
    }

    /// The user no longer wants to see the task.
    pub fn quit_session(&mut self)
        requires
            old(self).wf(),
        ensures
            final(self).wf(),
            final(self)@ == (Window {
                is_running: false,
                ..logged(old(self)@, "[INFO] Session quit by user.\n"@)
            }),
    {
        self.is_running = false;
        self.log.push_str("[INFO] Session quit by user.\n");
    }

    // -----------------------------------------------------------------------------------------
    // Contacts
    // -----------------------------------------------------------------------------------------

    fn refresh_aliases(&mut self)
        requires
            old(self).nymx_config.wf(),
        ensures
            final(self).wf(),
            final(self)@ == (Window { aliases: final(self)@.aliases, ..old(self)@ }),
    {
        self.sorted_nymx_aliases = self.nymx_config.aliases.sorted_keys();
    }

    /// The contact that was entered is to be added. Without an alias or an address nothing happens; else
    /// the contacts are to be saved, and `contact_saved` is to be told of it.
    pub fn add_contact(&mut self) -> (save: bool)
        requires
            old(self).wf(),
        ensures
            final(self).wf(),
            save == (trim(old(self)@.new_alias).len() > 0 && trim(old(self)@.new_address).len() > 0),
            final(self)@ == if save {
                Window {
                    contacts: old(self)@.contacts.insert(
                        old(self)@.new_alias,
                        old(self)@.new_address,
                    ),
                    aliases: final(self)@.aliases,
                    ..old(self)@
                }
            } else {
                old(self)@
            },
    {
        if blank(self.new_alias.as_str()) || blank(self.new_address.as_str()) {
            return false;
        }
        self.nymx_config.add_contact(self.new_alias.as_str(), self.new_address.as_str());
        self.refresh_aliases();
        true
    }

    /// The contacts were saved with the one that was added, or could not be.
    pub fn contact_saved(&mut self, error: Option<String>)
        requires
            old(self).wf(),
        ensures
            final(self).wf(),
            final(self)@ == (Window {
                selected: old(self)@.new_alias,
                log: old(self)@.log + save_line(error) + "[INFO] Added contact: "@ + old(
                    self,
                )@.new_alias + " -> "@ + old(self)@.new_address + "\n"@,
                new_alias: Seq::empty(),
                new_address: Seq::empty(),
                show_add_contact: false,
                ..old(self)@
            }),
    {
        self.log_save(error);
        self.log.push_str("[INFO] Added contact: ");
        self.log.push_str(self.new_alias.as_str());
        self.log.push_str(" -> ");
        self.log.push_str(self.new_address.as_str());
        self.log.push_str("\n");
        self.selected_nymx_alias = owned(self.new_alias.as_str());
        self.cancel_add();
    }

    fn log_save(&mut self, error: Option<String>)
        requires
            old(self).wf(),
        ensures
            final(self).wf(),
            final(self)@ == logged(old(self)@, save_line(error)),
    {
        match error {
            Some(e) => {
                self.log.push_str("[ERROR] Failed to save config: ");
                self.log.push_str(e.as_str());
                self.log.push_str("\n");
                assert(self@.log =~= old(self)@.log + save_line(Some(e)));
            },
            None => {
                self.log.push_str("[INFO] Config saved successfully.\n");
            },
        }
    }

    /// No contact is to be added after all.
    pub fn cancel_add(&mut self)
        requires
            old(self).wf(),
        ensures
            final(self).wf(),
            final(self)@ == (Window {
                new_alias: Seq::empty(),
                new_address: Seq::empty(),
                show_add_contact: false,
                ..old(self)@
            }),
    {
        self.new_alias = String::new();
        self.new_address = String::new();
        self.show_add_contact = false;
        assert(self@.new_alias =~= Seq::empty());
        assert(self@.new_address =~= Seq::empty());
    }

    /// The selected contact is to be deleted, if the user confirms it.
    pub fn ask_delete(&mut self)
        requires
            old(self).wf(),
        ensures
            final(self).wf(),
            final(self)@ == (Window {
                contact_to_delete: old(self)@.selected,
                show_delete_confirmation: true,
                ..old(self)@
            }),
    {
        self.contact_to_delete = owned(self.selected_nymx_alias.as_str());
        self.show_delete_confirmation = true;
    }

    /// Whether the user is asked to confirm a deletion.
    pub fn asks_delete(&self) -> (r: bool)
        ensures
            r == (self@.show_delete_confirmation && self@.contact_to_delete.len() > 0),
    {
        self.show_delete_confirmation && !self.contact_to_delete.as_str().is_empty()
    }

    /// The deletion is confirmed. If there is such a contact, the contacts are to be saved, and
    /// `deletion_saved` is to be told of it; else that is all.
    pub fn delete_contact(&mut self) -> (save: bool)
        requires
            old(self).wf(),
        ensures
            final(self).wf(),
            save == old(self)@.contacts.contains_key(old(self)@.contact_to_delete),
            final(self)@ == if save {
                Window {
                    contacts: old(self)@.contacts.remove(old(self)@.contact_to_delete),
                    aliases: final(self)@.aliases,
                    ..old(self)@
                }
            } else {
                Window {
                    contact_to_delete: Seq::empty(),
                    show_delete_confirmation: false,
                    ..old(self)@
                }
            },
    {
        let was_there = self.nymx_config.remove_contact(self.contact_to_delete.as_str());
        if !was_there {
            assert(self@.contacts =~= old(self)@.contacts);
            self.cancel_delete();
            return false;
        }
        self.refresh_aliases();
        true
    }

    /// The contacts were saved without the one that was deleted, or could not be. If it was selected, the
    /// first one is now.
    pub fn deletion_saved(&mut self, error: Option<String>)
        requires
            old(self).wf(),
        ensures
            final(self).wf(),
            final(self)@ == (Window {
                selected: if old(self)@.selected == old(self)@.contact_to_delete {
                    first_alias(old(self)@.aliases)
                } else {
                    old(self)@.selected
                },
                log: old(self)@.log + save_line(error) + "[INFO] Deleted contact: "@ + old(
                    self,
                )@.contact_to_delete + "\n"@,
                contact_to_delete: Seq::empty(),
                show_delete_confirmation: false,
                ..old(self)@
            }),
    {
        self.log_save(error);
        if same_text(self.selected_nymx_alias.as_str(), self.contact_to_delete.as_str()) {
            self.selected_nymx_alias = first_of(&self.sorted_nymx_aliases);
        }
        self.log.push_str("[INFO] Deleted contact: ");
        self.log.push_str(self.contact_to_delete.as_str());
        self.log.push_str("\n");
        self.cancel_delete();
    }

    /// No contact is to be deleted after all.
    pub fn cancel_delete(&mut self)
        requires
            old(self).wf(),
        ensures
            final(self).wf(),
            final(self)@ == (Window {
                contact_to_delete: Seq::empty(),
                show_delete_confirmation: false,
                ..old(self)@
            }),
    {
        self.contact_to_delete = String::new();
        self.show_delete_confirmation = false;
        assert(self@.contact_to_delete =~= Seq::empty());
    }

    /// The theme is changed.
    pub fn toggle_theme(&mut self)
        requires
            old(self).wf(),
        ensures
            final(self).wf(),
            final(self)@ == (Window { dark_mode: !old(self)@.dark_mode, ..old(self)@ }),
    {
        self.dark_mode = !self.dark_mode;
    }
}

fn first_of(aliases: &Vec<String>) -> (first: String)
    ensures
        first@ == first_alias(texts(aliases@)),
{
    if aliases.len() > 0 {
        assert(texts(aliases@)[0] == aliases@[0]@);
        owned(aliases[0].as_str())
    } else {
        let none = String::new();
        assert(none@ =~= Seq::empty());
        none
    }
}

/// The list in the window is determined by the contacts: two lists of the same contacts are the same.
pub proof fn law_alias_list_is_determined(
    first: Seq<Seq<char>>,
    second: Seq<Seq<char>>,
    contacts: Map<Seq<char>, Seq<char>>,
)
    requires
        lists(first, contacts),
        lists(second, contacts),
    ensures
        first == second,
    decreases first.len(),
{
    if first.len() > 0 && second.len() > 0 {
        lemma_same_head(first, second);
        let a = first[0];
        let rest = contacts.remove(a);
        lemma_tail_lists(first, contacts);
        lemma_tail_lists(second, contacts);
        law_alias_list_is_determined(first.drop_first(), second.drop_first(), rest);
        assert(first =~= seq![a] + first.drop_first());
        assert(second =~= seq![a] + second.drop_first());
    } else if first.len() > 0 {
        assert(first.contains(first[0]));
        assert(second.contains(first[0]));
    } else if second.len() > 0 {
        assert(second.contains(second[0]));
        assert(first.contains(second[0]));
    } else {
        assert(first =~= second);
    }
}

proof fn lemma_same_head(first: Seq<Seq<char>>, second: Seq<Seq<char>>)
    requires
        first.len() > 0,
        second.len() > 0,
        ascending(first),
        ascending(second),
        forall|alias: Seq<char>| first.contains(alias) <==> #[trigger] second.contains(alias),
    ensures
        first[0] == second[0],
{
    assert(first.contains(first[0]));
    assert(second.contains(first[0]));
    assert(second.contains(second[0]));
    assert(first.contains(second[0]));
    let i = choose|i: int| 0 <= i < second.len() && second[i] == first[0];
    let j = choose|j: int| 0 <= j < first.len() && first[j] == second[0];
    if i > 0 && j > 0 {
        assert(crate::text::text_before(second[0], second[i]));
        assert(crate::text::text_before(first[0], first[j]));
        crate::text::lemma_before_transitive(first[0], second[0], first[0]);
        crate::text::lemma_before_irreflexive(first[0]);
    }
}

proof fn lemma_tail_lists(aliases: Seq<Seq<char>>, contacts: Map<Seq<char>, Seq<char>>)
    requires
        aliases.len() > 0,
        lists(aliases, contacts),
    ensures
        lists(aliases.drop_first(), contacts.remove(aliases[0])),
{
    let tail = aliases.drop_first();
    assert forall|i: int, j: int| #![trigger tail[i], tail[j]]
        0 <= i < j < tail.len() implies crate::text::text_before(tail[i], tail[j]) by {
        assert(tail[i] == aliases[i + 1] && tail[j] == aliases[j + 1]);
    }
    assert forall|alias: Seq<char>| #[trigger] tail.contains(alias) <==> contacts.remove(
        aliases[0],
    ).contains_key(alias) by {
        if tail.contains(alias) {
            let i = choose|i: int| 0 <= i < tail.len() && tail[i] == alias;
            assert(aliases[i + 1] == alias);
            assert(crate::text::text_before(aliases[0], aliases[i + 1]));
            crate::text::lemma_before_irreflexive(alias);
            assert(aliases.contains(alias));
        }
        if contacts.remove(aliases[0]).contains_key(alias) {
            assert(aliases.contains(alias));
            let i = choose|i: int| 0 <= i < aliases.len() && aliases[i] == alias;
            assert(tail[i - 1] == alias);
        }
    }
}

// ---------------------------------------------------------------------------------------------
// What holds of it
// ---------------------------------------------------------------------------------------------

proof fn lemma_without_digits(stem: Seq<char>, digits: Seq<char>)
    requires
        stem.len() > 0 ==> !('0' <= stem.last() <= '9'),
        forall|i: int| 0 <= i < digits.len() ==> '0' <= #[trigger] digits[i] <= '9',
    ensures
        without_digits(stem + digits) == stem,
    decreases digits.len(),
{
    if digits.len() > 0 {
        let fewer = digits.drop_last();
        assert((stem + digits).drop_last() =~= stem + fewer);
        assert('0' <= digits[digits.len() - 1] <= '9');
        assert forall|i: int| 0 <= i < fewer.len() implies '0' <= #[trigger] fewer[i] <= '9' by {
            assert('0' <= digits[i] <= '9');
        }
        lemma_without_digits(stem, fewer);
    } else {
        assert(stem + digits =~= stem);
    }
}

/// The names of the parts of a file differ in their number alone: whatever the number and the extension,
/// the same prefix is found.
pub proof fn law_prefix_of_parts(stem: Seq<char>, digits: Seq<char>, extension: Seq<char>)
    requires
        stem.len() > 0 ==> !('0' <= stem.last() <= '9'),
        forall|i: int| 0 <= i < digits.len() ==> '0' <= #[trigger] digits[i] <= '9',
        !extension.contains('.'),
    ensures
        part_prefix(stem + digits + "."@ + extension) == stem,
        !stem.contains('.') ==> part_prefix(stem + digits) == stem,
        part_prefix(stem + digits + "."@ + extension).is_prefix_of(
            stem + digits + "."@ + extension,
        ),
{
    reveal_strlit(".");
    assert("."@ =~= seq!['.']);
    let front = stem + digits;
    let name = front + "."@ + extension;
    crate::text_laws::law_position_of_a_character(front, '.', extension);
    assert(name.take(front.len() as int) =~= front);
    lemma_without_digits(stem, digits);
    assert(name.subrange(0, stem.len() as int) =~= stem);
    if !stem.contains('.') {
        assert forall|i: int| 0 <= i < front.len() implies front[i] != '.' by {
            if i < stem.len() {
                assert(stem.contains(stem[i]));
            } else {
                assert('0' <= digits[i - stem.len()] <= '9');
            }
        }
        crate::text_laws::law_position_of_a_character(front, '.', Seq::empty());
    }
}

/// The alias that is selected first is the smallest one of the contacts, and there is one exactly if there
/// are contacts with an alias.
pub proof fn law_first_alias(
    aliases: Seq<Seq<char>>,
    contacts: Map<Seq<char>, Seq<char>>,
    alias: Seq<char>,
)
    requires
        lists(aliases, contacts),
        contacts.contains_key(alias),
    ensures
        contacts.contains_key(first_alias(aliases)),
        alias == first_alias(aliases) || crate::text::text_before(first_alias(aliases), alias),
        first_alias(Seq::empty()).len() == 0,
{
    assert(aliases.contains(alias));
    let i = choose|i: int| 0 <= i < aliases.len() && aliases[i] == alias;
    assert(aliases.contains(aliases[0]));
    if i > 0 {
        assert(crate::text::text_before(aliases[0], aliases[i]));
    }
}

/// A list of aliases is complete, has nothing twice, and is in ascending order.
pub proof fn law_alias_list(
    aliases: Seq<Seq<char>>,
    contacts: Map<Seq<char>, Seq<char>>,
    alias: Seq<char>,
    i: int,
    j: int,
)
    requires
        lists(aliases, contacts),
        0 <= i < j < aliases.len(),
    ensures
        crate::text::text_before(aliases[i], aliases[j]),
        aliases[i] != aliases[j],
        contacts.contains_key(aliases[i]),
        contacts.contains_key(alias) ==> exists|k: int|
            0 <= k < aliases.len() && #[trigger] aliases[k] == alias,
{
    assert(aliases.contains(aliases[i]));
    crate::text::lemma_before_irreflexive(aliases[i]);
    if contacts.contains_key(alias) {
        assert(aliases.contains(alias));
    }
}

/// A line comes behind all that is in the log, and nothing else of the window changes. What is said of
/// settings that were saved tells whether it worked, and why not.
pub proof fn law_log_grows(w: Window, line: Seq<char>, error: Option<String>)
    ensures
        logged(w, line).log.len() == w.log.len() + line.len(),
        w.log.is_prefix_of(logged(w, line).log),
        line.is_suffix_of(logged(w, line).log),
        (Window { log: w.log, ..logged(w, line) }) == w,
        error is None ==> save_line(error) == "[INFO] Config saved successfully.\n"@,
        error matches Some(e) ==> save_line(error) == "[ERROR] Failed to save config: "@ + e@ + "\n"@,
{
    let log = logged(w, line).log;
    assert(log.subrange(0, w.log.len() as int) =~= w.log);
    assert(log.subrange(w.log.len() as int, log.len() as int) =~= line);
}

/// What a window stands for is what it holds.
pub proof fn law_window_is_seen_whole(app: NymXApp)
    ensures
        app@.contacts == app.nymx_config@,
        app@.aliases == texts(app.sorted_nymx_aliases@),
        app@.selected == app.selected_nymx_alias@,
        app@.action == app.action,
        app@.file_path == app.file_path@,
        app@.mode_parts == app.mode_parts,
        app@.receive_path == app.receive_path@,
        app@.log == app.log@,
        app@.is_running == app.is_running,
        app@.dark_mode == app.dark_mode,
        app@.show_add_contact == app.show_add_contact,
        app@.show_about == app.show_about,
        app@.show_delete_confirmation == app.show_delete_confirmation,
        app@.new_alias == app.new_alias@,
        app@.new_address == app.new_address@,
        app@.contact_to_delete == app.contact_to_delete@,
{
}

} // verus!
