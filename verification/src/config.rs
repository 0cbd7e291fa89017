//! Settings: contacts, the server that files are fetched from, and where the settings are kept.
use vstd::prelude::*;
use crate::string_map::{text_map, StringMap};
use crate::text::{optional_text, owned};

verus! {

/// The contacts: Nym addresses by alias.
pub struct Config {
    pub aliases: StringMap<String>,
}

impl View for Config {
    type V = Map<Seq<char>, Seq<char>>;

    open spec fn view(&self) -> Map<Seq<char>, Seq<char>> {
        text_map(self.aliases@)
    }
}

/// The address that a user means: that of the alias, or what was given where it is no alias.
pub open spec fn address_for(contacts: Map<Seq<char>, Seq<char>>, input: Seq<char>) -> Seq<char> {
    if contacts.contains_key(input) {
        contacts[input]
    } else {
        input
    }
}

impl Default for Config {
    /// There are no contacts.
    fn default() -> (config: Config)
        ensures
            config.wf(),
            config@ == Map::<Seq<char>, Seq<char>>::empty(),
    {
        let config = Config { aliases: StringMap::new() };
        assert(config@ =~= Map::empty());
        config
    }
}

impl Config {
    /// No alias occurs twice.
    pub open spec fn wf(self) -> bool {
        self.aliases.wf()
    }

    /// The address of an alias.
    pub fn resolve(&self, input: &str) -> (address: Option<String>)
        requires
            self.wf(),
        ensures
            optional_text(address) == if self@.contains_key(input@) {
                Some(self@[input@])
            } else {
                None
            },
    {
        match self.aliases.get(input) {
            Some(address) => Some(owned(address.as_str())),
            None => None,
        }
    }

    /// The address of an alias, or the input itself where it is no alias.
    pub fn address_of(&self, input: &str) -> (address: String)
        requires
            self.wf(),
        ensures
            address@ == address_for(self@, input@),
    {
        match self.resolve(input) {
            Some(address) => address,
            None => owned(input),
        }
    }

    /// Gives an alias an address.
    pub fn add_contact(&mut self, alias: &str, address: &str)
        requires
            old(self).wf(),
        ensures
            final(self).wf(),
            final(self)@ == old(self)@.insert(alias@, address@),
    {
        self.aliases.insert(owned(alias), owned(address));
        assert(self@ =~= old(self)@.insert(alias@, address@));
    }

    /// Takes an alias away. The result says whether it was there.
    pub fn remove_contact(&mut self, alias: &str) -> (was_there: bool)
        requires
            old(self).wf(),
        ensures
            final(self).wf(),
            final(self)@ == old(self)@.remove(alias@),
            was_there == old(self)@.contains_key(alias@),
    {
        let removed = self.aliases.remove(alias);
        assert(self@ =~= old(self)@.remove(alias@));
        removed.is_some()
    }
}

/// The settings of the program.
pub struct NymxConfig {
    pub host: Option<String>,
    pub port: Option<u16>,
    pub username: Option<String>,
    pub socks5_proxy: Option<String>,
    pub aliases: Option<StringMap<String>>,
}

impl Default for NymxConfig {
    /// Nothing is set.
    fn default() -> (config: NymxConfig)
        ensures
            config.host is None,
            config.port is None,
            config.username is None,
            config.socks5_proxy is None,
            config.aliases is None,
    {
        NymxConfig { host: None, port: None, username: None, socks5_proxy: None, aliases: None }
    }
}

/// The part of the settings that stands under the heading `ssh`.
pub struct SshSection {
    pub host: Option<String>,
    pub port: Option<u16>,
    pub username: Option<String>,
    pub socks5_proxy: Option<String>,
}

/// The first text, or the second where there is no first.
pub open spec fn or_text(first: Option<Seq<char>>, second: Option<Seq<char>>) -> Option<Seq<char>> {
    if first is Some {
        first
    } else {
        second
    }
}

fn either(first: &Option<String>, second: Option<String>) -> (r: Option<String>)
    ensures
        optional_text(r) == or_text(optional_text(*first), optional_text(second)),
{
    match first {
        Some(text) => Some(owned(text.as_str())),
        None => second,
    }
}

impl NymxConfig {
    /// The settings with those under the heading `ssh`: what is set there counts.
    pub fn with_ssh_section(self, ssh: &SshSection) -> (config: NymxConfig)
        ensures
            optional_text(config.host) == or_text(optional_text(ssh.host), optional_text(self.host)),
            config.port == if ssh.port is Some {
                ssh.port
            } else {
                self.port
            },
            optional_text(config.username) == or_text(
                optional_text(ssh.username),
                optional_text(self.username),
            ),
            optional_text(config.socks5_proxy) == or_text(
                optional_text(ssh.socks5_proxy),
                optional_text(self.socks5_proxy),
            ),
            config.aliases == self.aliases,
    {
        NymxConfig {
            host: either(&ssh.host, self.host),
            port: if ssh.port.is_some() {
                ssh.port
            } else {
                self.port
            },
            username: either(&ssh.username, self.username),
            socks5_proxy: either(&ssh.socks5_proxy, self.socks5_proxy),
            aliases: self.aliases,
        }
    }
}

/// A place where the settings may be kept.
#[derive(Debug, Clone, Copy, PartialEq, Eq, Structural)]
pub enum ConfigPlace {
    /// The working directory.
    WorkingDir,
    /// The directory of the program.
    ProgramDir,
    /// `nymx` under the application data of the user.
    AppData,
    /// `.config/nymx` under the profile of the user.
    UserProfile,
    /// `.config/nymx` under the home of the user.
    Home,
}

/// In which places the settings were found.
#[derive(Debug, Clone, Copy, PartialEq, Eq, Structural)]
pub struct ConfigFinds {
    pub working_dir: bool,
    pub program_dir: bool,
    pub app_data: bool,
    pub user_profile: bool,
    pub home: bool,
}

/// The place whose settings count: the working directory, then that of the program, then those of the
/// user, which differ between Windows and other systems.
pub fn find_config_file(windows: bool, found: ConfigFinds) -> (place: Option<ConfigPlace>)
    ensures
        place == if found.working_dir {
            Some(ConfigPlace::WorkingDir)
        } else if found.program_dir {
            Some(ConfigPlace::ProgramDir)
        } else if windows && found.app_data {
            Some(ConfigPlace::AppData)
        } else if windows && found.user_profile {
            Some(ConfigPlace::UserProfile)
        } else if !windows && found.home {
            Some(ConfigPlace::Home)
        } else {
            None
        },
{
    if found.working_dir {
        return Some(ConfigPlace::WorkingDir);
    }
    if found.program_dir {
        return Some(ConfigPlace::ProgramDir);
    }
    if windows {
        if found.app_data {
            return Some(ConfigPlace::AppData);
        }
        if found.user_profile {
            return Some(ConfigPlace::UserProfile);
        }
        return None;
    }
    if found.home {
        Some(ConfigPlace::Home)
    } else {
        None
    }
}

/// The directory under which contacts and keys are kept.
#[derive(Debug, Clone, Copy, PartialEq, Eq, Structural)]
pub enum BaseDir {
    /// The directory of the program.
    ProgramDir,
    /// The home of the user.
    Home,
}

/// The directory under which contacts and keys are kept: that of the program on Windows, and where it
/// holds settings; else the home of the user, if there is one.
pub fn get_base_dir(windows: bool, config_in_program_dir: bool, has_home: bool) -> (dir: BaseDir)
    ensures
        dir == if !windows && !config_in_program_dir && has_home {
            BaseDir::Home
        } else {
            BaseDir::ProgramDir
        },
{
    if windows || config_in_program_dir || !has_home {
        BaseDir::ProgramDir
    } else {
        BaseDir::Home
    }
}

/// A contact that was added is found under its alias, and no other one changes; one that was taken
/// away is found no more.
pub proof fn law_contacts(
    contacts: Map<Seq<char>, Seq<char>>,
    alias: Seq<char>,
    address: Seq<char>,
    other: Seq<char>,
)
    ensures
        address_for(contacts.insert(alias, address), alias) == address,
        address_for(contacts.remove(alias), alias) == alias,
        other != alias ==> address_for(contacts.insert(alias, address), other) == address_for(
            contacts,
            other,
        ),
        other != alias ==> address_for(contacts.remove(alias), other) == address_for(
            contacts,
            other,
        ),
{
}

/// Of two settings the first counts where it is given, and else the second.
pub proof fn law_first_setting_counts(first: Seq<char>, second: Option<Seq<char>>)
    ensures
        or_text(Some(first), second) == Some(first),
        or_text(None, second) == second,
{
}

/// The address that is meant is that of the contact with this alias, and what is no alias is an address.
pub proof fn law_addresses(contacts: Map<Seq<char>, Seq<char>>, input: Seq<char>)
    ensures
        contacts.dom().contains(input) ==> address_for(contacts, input) == contacts[input],
        !contacts.dom().contains(input) ==> address_for(contacts, input) == input,
{
}

/// The contacts are the aliases with the texts of their addresses.
pub proof fn law_contacts_are_seen_whole(config: Config, alias: Seq<char>)
    ensures
        config@.contains_key(alias) <==> config.aliases@.contains_key(alias),
        config.aliases@.contains_key(alias) ==> config@[alias] == config.aliases@[alias]@,
{
}

} // verus!
