use vstd::prelude::*;

verus! {

/// The colour scheme of the application.
#[derive(Debug, Default, Clone, Copy, PartialEq, Eq, Structural)]
pub enum Theme {
    #[default]
    SystemPreference,
    Dark,
    Light,
}

impl Theme {
    /// The number that stands for the theme in settings.
    pub open spec fn spec_index(self) -> u8 {
        match self {
            Theme::SystemPreference => 0,
            Theme::Dark => 1,
            Theme::Light => 2,
        }
    }

    pub fn index(self) -> (i: u8)
        ensures
            i == self.spec_index(),
    {
        match self {
            Theme::SystemPreference => 0,
            Theme::Dark => 1,
            Theme::Light => 2,
        }
    }

    /// The theme that `value` stands for.
    pub fn from_index(value: u8) -> (t: Theme)
        requires
            value <= 2,
        ensures
            t.spec_index() == value,
    {
        match value {
            0 => Theme::SystemPreference,
            1 => Theme::Dark,
            _ => Theme::Light,
        }
    }
}

/// A theme is determined by its number: turning a theme into its number
/// and back gives the same theme.
pub proof fn lemma_theme_index_round_trip(t: Theme, back: Theme)
    requires
        back.spec_index() == t.spec_index(),
    ensures
        back == t,
{
}

/// The name of a setting.
#[derive(Debug, Clone, Copy, PartialEq, Eq, Structural)]
pub enum UserSettingsKey {
    ThemeKey,
}

/// The value of a setting.
#[derive(Debug, Clone, Copy, PartialEq, Eq, Structural)]
pub enum UserSettingsValue {
    ThemeValue(Theme),
}

/// The user's settings, by name, and the name of the file they are kept in.
#[derive(Debug)]
pub struct UserSettings {
    user_settings: Vec<(UserSettingsKey, UserSettingsValue)>,
    config_name: String,
}

/// The value stored for `key` (the first entry for it).
pub open spec fn setting_of(s: Seq<(UserSettingsKey, UserSettingsValue)>, key: UserSettingsKey) -> Option<
    UserSettingsValue,
> {
    if exists|i: int| 0 <= i < s.len() && (#[trigger] s[i]).0 == key {
        Some(s[choose|i: int| 0 <= i < s.len() && (#[trigger] s[i]).0 == key].1)
    } else {
        None
    }
}

impl UserSettings {
    pub closed spec fn entries(&self) -> Seq<(UserSettingsKey, UserSettingsValue)> {
        self.user_settings@
    }

    pub closed spec fn spec_config_name(&self) -> Seq<char> {
        self.config_name@
    }

    /// No setting is stored twice.
    pub open spec fn wf(&self) -> bool {
        forall|i: int, j: int|
            0 <= i < j < self.entries().len() ==> (#[trigger] self.entries()[i]).0 != (
            #[trigger] self.entries()[j]).0
    }

    /// The settings as a map from names to values.
    pub open spec fn settings(&self) -> Map<UserSettingsKey, UserSettingsValue> {
        Map::new(|k: UserSettingsKey| setting_of(self.entries(), k) is Some, |k: UserSettingsKey| setting_of(self.entries(), k).unwrap())
    }

    /// No settings, kept in `config.json`.
    pub fn new() -> (s: Self)
        ensures
            s.wf(),
            s.settings() == Map::<UserSettingsKey, UserSettingsValue>::empty(),
            s.spec_config_name() == "config.json"@,
    {
        let s = UserSettings { user_settings: Vec::new(), config_name: "config.json".to_owned() };
        proof {
            assert(s.settings() =~= Map::<UserSettingsKey, UserSettingsValue>::empty());
        }
        s
    }

    pub fn config_name(&self) -> (n: &String)
        ensures
            n@ == self.spec_config_name(),
    {
        &self.config_name
    }

    /// The value of setting `key`, if set.
    pub fn get_setting(&self, key: UserSettingsKey) -> (v: Option<&UserSettingsValue>)
        requires
            self.wf(),
        ensures
            v matches Some(x) ==> self.settings().contains_key(key) && *x == self.settings()[key],
            v is None ==> !self.settings().contains_key(key),
    {
        let mut i: usize = 0;
        while i < self.user_settings.len()
            invariant
                0 <= i <= self.user_settings.len(),
                self.wf(),
                forall|j: int| 0 <= j < i ==> (#[trigger] self.user_settings@[j]).0 != key,
            decreases self.user_settings.len() - i,
        {
            if self.user_settings[i].0 == key {
                proof {
                    let c = choose|j: int| 0 <= j < self.entries().len() && (#[trigger] self.entries()[j]).0 == key;
                    if c != i {
                        if c < i {
                        } else {
                            assert(self.entries()[i as int].0 != self.entries()[c].0);
                        }
                    }
                }
                return Some(&self.user_settings[i].1);
            }
            i = i + 1;
        }
        None
    }

    /// Sets setting `key` to `value`.
    pub fn set_setting(&mut self, key: UserSettingsKey, value: UserSettingsValue)
        requires
            old(self).wf(),
        ensures
            final(self).wf(),
            final(self).settings() == old(self).settings().insert(key, value),
            final(self).spec_config_name() == old(self).spec_config_name(),
    {
        let ghost old_entries = self.user_settings@;
        let mut i: usize = 0;
        while i < self.user_settings.len()
            invariant
                0 <= i <= self.user_settings.len(),
                self.user_settings@ == old_entries,
                old_entries == old(self).entries(),
                old(self).wf(),
                self.config_name == old(self).config_name,
                forall|j: int| 0 <= j < i ==> (#[trigger] self.user_settings@[j]).0 != key,
            decreases self.user_settings.len() - i,
        {
            if self.user_settings[i].0 == key {
                self.user_settings.set(i, (key, value));
                proof {
                    let e = self.user_settings@;
                    assert forall|a: int, b: int| 0 <= a < b < e.len() implies (#[trigger] e[a]).0 != (#[trigger] e[b]).0 by {
                        assert(old_entries[a].0 != old_entries[b].0);
                    }
                    assert forall|k: UserSettingsKey| setting_of(e, k) == if k == key {
                        Some(value)
                    } else {
                        setting_of(old_entries, k)
                    } by {
                        if exists|j: int| 0 <= j < e.len() && (#[trigger] e[j]).0 == k {
                            let c = choose|j: int| 0 <= j < e.len() && (#[trigger] e[j]).0 == k;
                            if k == key {
                                if c != i {
                                    assert(e[c].0 != e[i as int].0);
                                }
                            } else {
                                assert(old_entries[c].0 == k);
                                let c2 = choose|j: int| 0 <= j < old_entries.len() && (#[trigger] old_entries[j]).0 == k;
                                if c2 != c {
                                    assert(old_entries[c2].0 != old_entries[c].0);
                                }
                            }
                        } else {
                            if exists|j: int| 0 <= j < old_entries.len() && (#[trigger] old_entries[j]).0 == k {
                                let c2 = choose|j: int| 0 <= j < old_entries.len() && (#[trigger] old_entries[j]).0 == k;
                                assert(e[c2].0 == k);
                            }
                        }
                    }
                    assert(self.settings() =~= old(self).settings().insert(key, value));
                }
                return;
            }
            i = i + 1;
        }
        self.user_settings.push((key, value));
        proof {
            let e = self.user_settings@;
            assert forall|a: int, b: int| 0 <= a < b < e.len() implies (#[trigger] e[a]).0 != (#[trigger] e[b]).0 by {
                if b < old_entries.len() {
                    assert(old_entries[a].0 != old_entries[b].0);
                }
            }
            assert forall|k: UserSettingsKey| setting_of(e, k) == if k == key {
                Some(value)
            } else {
                setting_of(old_entries, k)
            } by {
                if k == key {
                    assert(e[old_entries.len() as int].0 == k);
                    let c = choose|j: int| 0 <= j < e.len() && (#[trigger] e[j]).0 == k;
                    if c < old_entries.len() {
                        assert(old_entries[c].0 == key);
                    }
                } else {
                    if exists|j: int| 0 <= j < e.len() && (#[trigger] e[j]).0 == k {
                        let c = choose|j: int| 0 <= j < e.len() && (#[trigger] e[j]).0 == k;
                        assert(c < old_entries.len());
                        assert(old_entries[c].0 == k);
                        let c2 = choose|j: int| 0 <= j < old_entries.len() && (#[trigger] old_entries[j]).0 == k;
                        if c2 != c {
                            if c2 < c {
                                assert(old_entries[c2].0 != old_entries[c].0);
                            } else {
                                assert(old_entries[c].0 != old_entries[c2].0);
                            }
                        }
                    } else {
                        if exists|j: int| 0 <= j < old_entries.len() && (#[trigger] old_entries[j]).0 == k {
                            let c2 = choose|j: int| 0 <= j < old_entries.len() && (#[trigger] old_entries[j]).0 == k;
                            assert(e[c2].0 == k);
                        }
                    }
                }
            }
            assert(self.settings() =~= old(self).settings().insert(key, value));
        }
    }

    /// Puts in the settings a new configuration starts with: the theme
    /// follows the system.
    pub fn create_defaults(&mut self)
        requires
            old(self).wf(),
        ensures
            final(self).wf(),
            final(self).settings() == old(self).settings().insert(
                UserSettingsKey::ThemeKey,
                UserSettingsValue::ThemeValue(Theme::SystemPreference),
            ),
            final(self).spec_config_name() == old(self).spec_config_name(),
    {
        self.set_setting(UserSettingsKey::ThemeKey, UserSettingsValue::ThemeValue(Theme::SystemPreference));
    }
}

/// Reading a setting gives back the value last set for it, and setting
/// one leaves the others as they were.
pub proof fn lemma_setting_read_after_write(
    before: UserSettings,
    after: UserSettings,
    key: UserSettingsKey,
    value: UserSettingsValue,
    other: UserSettingsKey,
)
    requires
        after.settings() == before.settings().insert(key, value),
    ensures
        after.settings().contains_key(key) && after.settings()[key] == value,
        other != key ==> after.settings().contains_key(other) == before.settings().contains_key(other) && (
        before.settings().contains_key(other) ==> after.settings()[other] == before.settings()[other]),
{
}

/// Where the settings file goes, as path components, given the operating
/// system and the environment variables it looks at.
pub open spec fn config_path_spec(
    os: Seq<char>,
    xdg_config_home: Option<Seq<char>>,
    home: Option<Seq<char>>,
    user_profile: Option<Seq<char>>,
    config_name: Seq<char>,
) -> Result<Seq<Seq<char>>, Seq<char>> {
    if os == "linux"@ || os == "macos"@ {
        match xdg_config_home {
            Some(x) => Ok(seq![x, "logicrs"@, config_name]),
            None => match home {
                Some(h) => Ok(seq![h, ".config"@, "logicrs"@, config_name]),
                None => Err("Could not find valid config directory"@),
            },
        }
    } else if os == "windows"@ {
        match user_profile {
            Some(u) => Ok(seq![u, "AppData"@, "Local"@, config_name]),
            None => Err("Could not find user profile directory"@),
        }
    } else {
        Err("Could not find valid config directory"@)
    }
}

pub open spec fn strings_view(v: Seq<String>) -> Seq<Seq<char>> {
    v.map_values(|s: String| s@)
}

/// The path components of the settings file (see `config_path_spec`).
pub fn config_path_parts(
    os: &String,
    xdg_config_home: Option<String>,
    home: Option<String>,
    user_profile: Option<String>,
    config_name: &String,
) -> (r: Result<Vec<String>, String>)
    ensures
        match (r, config_path_spec(
            os@,
            match xdg_config_home {
                Some(x) => Some(x@),
                None => None,
            },
            match home {
                Some(x) => Some(x@),
                None => None,
            },
            match user_profile {
                Some(x) => Some(x@),
                None => None,
            },
            config_name@,
        )) {
            (Ok(v), Ok(s)) => strings_view(v@) == s,
            (Err(e), Err(s)) => e@ == s,
            _ => false,
        },
{
    let linux = "linux".to_owned();
    let macos = "macos".to_owned();
    let windows = "windows".to_owned();
    if *os == linux || *os == macos {
        match xdg_config_home {
            Some(x) => {
                let mut v: Vec<String> = Vec::new();
                v.push(x);
                v.push("logicrs".to_owned());
                v.push(config_name.clone());
                proof {
                    assert(strings_view(v@) =~= seq![v@[0]@, "logicrs"@, config_name@]);
                }
                Ok(v)
            },
            None => match home {
                Some(h) => {
                    let mut v: Vec<String> = Vec::new();
                    v.push(h);
                    v.push(".config".to_owned());
                    v.push("logicrs".to_owned());
                    v.push(config_name.clone());
                    proof {
                        assert(strings_view(v@) =~= seq![v@[0]@, ".config"@, "logicrs"@, config_name@]);
                    }
                    Ok(v)
                },
                None => Err("Could not find valid config directory".to_owned()),
            },
        }
    } else if *os == windows {
        match user_profile {
            Some(u) => {
                let mut v: Vec<String> = Vec::new();
                v.push(u);
                v.push("AppData".to_owned());
                v.push("Local".to_owned());
                v.push(config_name.clone());
                proof {
                    assert(strings_view(v@) =~= seq![v@[0]@, "AppData"@, "Local"@, config_name@]);
                }
                Ok(v)
            },
            None => Err("Could not find user profile directory".to_owned()),
        }
    } else {
        Err("Could not find valid config directory".to_owned())
    }
}

} // verus!
