//! The settings that the framework runs by.

use std::sync::Arc;
use vstd::prelude::*;

use crate::framework::strings_view;

verus! {

/// Identifies a guild.
#[derive(Clone, Copy, Debug, PartialEq, Eq, Hash, Structural)]
pub struct GuildId(pub u64);

/// Allows users to define custom settings providers for the handler to pull from.
pub trait SettingsProvider {
    /// The default prefixes the bot should fallback to.
    fn default_prefixes(&self) -> Vec<String>;

    /// The prefixes for a specific guild.
    fn prefixes(&self, guild_id: GuildId) -> Option<Vec<String>>;

    /// Whether we should auto-register.
    fn auto_register(&self) -> bool;

    /// Whether we should auto-delete non-existant commands.
    fn auto_delete(&self) -> bool;

    /// Guilds to register commands to.
    fn auto_register_guilds(&self) -> Vec<GuildId>;
}

/// Represents the settings for the framework
pub struct Settings {
    /// The prefixes the bot uses
    pub prefixes: Vec<&'static str>,
    /// Whether to auto-register commands as slash commands on Ready.
    pub auto_register: bool,
    /// Whether to auto-delete unrecognized slash commands on Ready.
    pub auto_delete: bool,
    /// Guilds to register slash commands to.
    ///
    /// Registers all commands to these guilds regardles of `auto_register`.
    pub slash_command_guilds: Vec<GuildId>,
}

/// The strings that a vector of slices stands for.
pub open spec fn slices_view(slices: Seq<&'static str>) -> Seq<Seq<char>> {
    Seq::new(slices.len(), |i: int| slices[i]@)
}

impl SettingsProvider for Settings {
    fn default_prefixes(&self) -> (prefixes: Vec<String>)
        ensures
            strings_view(prefixes@) == slices_view(self.prefixes@),
    {
        let mut prefixes: Vec<String> = Vec::new();
        let mut i: usize = 0;
        while i < self.prefixes.len()
            invariant
                i <= self.prefixes.len(),
                prefixes.len() == i,
                forall|k: int| 0 <= k < i ==> (#[trigger] prefixes@[k])@ == self.prefixes@[k]@,
            decreases self.prefixes.len() - i,
        {
            prefixes.push(self.prefixes[i].to_owned());
            i = i + 1;
        }
        assert(strings_view(prefixes@) =~= slices_view(self.prefixes@));
        prefixes
    }

    fn prefixes(&self, _guild_id: GuildId) -> (prefixes: Option<Vec<String>>)
        ensures
            prefixes matches Some(p) && strings_view(p@) == slices_view(self.prefixes@),
    {
        Some(self.default_prefixes())
    }

    fn auto_register(&self) -> (on: bool)
        ensures
            on == self.auto_register,
    {
        self.auto_register
    }

    fn auto_delete(&self) -> (on: bool)
        ensures
            on == self.auto_delete,
    {
        self.auto_delete
    }

    fn auto_register_guilds(&self) -> (guilds: Vec<GuildId>)
        ensures
            guilds@ == self.slash_command_guilds@,
    {
        let mut guilds: Vec<GuildId> = Vec::new();
        let mut i: usize = 0;
        while i < self.slash_command_guilds.len()
            invariant
                i <= self.slash_command_guilds.len(),
                guilds@ == self.slash_command_guilds@.take(i as int),
            decreases self.slash_command_guilds.len() - i,
        {
            guilds.push(self.slash_command_guilds[i]);
            assert(guilds@ =~= self.slash_command_guilds@.take(i + 1));
            i = i + 1;
        }
        assert(self.slash_command_guilds@.take(i as int) =~= self.slash_command_guilds@);
        guilds
    }
}

/// Shared settings answer as the settings they hold: each answer is one that
/// the provider behind the pointer gives to the same question.
impl<T: SettingsProvider> SettingsProvider for Arc<T> {
    fn default_prefixes(&self) -> (prefixes: Vec<String>)
        ensures
            call_ensures(T::default_prefixes, (&**self,), prefixes),
    {
        T::default_prefixes(self)
    }

    fn prefixes(&self, guild_id: GuildId) -> (prefixes: Option<Vec<String>>)
        ensures
            call_ensures(T::prefixes, (&**self, guild_id), prefixes),
    {
        T::prefixes(self, guild_id)
    }

    fn auto_register(&self) -> (on: bool)
        ensures
            call_ensures(T::auto_register, (&**self,), on),
    {
        T::auto_register(self)
    }

    fn auto_delete(&self) -> (on: bool)
        ensures
            call_ensures(T::auto_delete, (&**self,), on),
    {
        T::auto_delete(self)
    }

    fn auto_register_guilds(&self) -> (guilds: Vec<GuildId>)
        ensures
            call_ensures(T::auto_register_guilds, (&**self,), guilds),
    {
        T::auto_register_guilds(self)
    }
}

} // verus!
