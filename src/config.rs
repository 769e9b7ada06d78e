//! Provider settings: the record kept for each language-model provider, the
//! view of it that is safe to show, and the operations on the settings as a
//! whole. The settings are kept sealed (see `security`) under a master key.

use vstd::prelude::*;
use crate::security::{decrypt, decrypt_spec, encrypt, EncryptionError, KeychainError};

verus! {

/// Settings of one provider.
pub struct ProviderConfig {
    pub provider_id: String,
    pub api_key: String,
    pub base_url: Option<String>,
    pub default_model: Option<String>,
    pub enabled: bool,
}

/// A provider's settings as shown to the user: whether a key is set, not the key.
pub struct MaskedProviderConfig {
    pub provider_id: String,
    pub has_api_key: bool,
    pub base_url: Option<String>,
    pub default_model: Option<String>,
    pub enabled: bool,
}

/// Settings that are not tied to a provider.
pub struct GeneralConfig {
    pub theme: String,
    pub default_provider: Option<String>,
}

/// All settings. At most one entry per provider id.
pub struct AppConfig {
    pub providers: Vec<ProviderConfig>,
    pub general: GeneralConfig,
}

/// The characters of an optional string.
pub open spec fn opt_view(o: Option<String>) -> Option<Seq<char>> {
    match o {
        Some(s) => Some(s@),
        None => None,
    }
}

/// Provider settings as values: id, key, base URL, default model, enabled.
pub type ProviderView = (Seq<char>, Seq<char>, Option<Seq<char>>, Option<Seq<char>>, bool);

impl View for ProviderConfig {
    type V = ProviderView;

    open spec fn view(&self) -> ProviderView {
        (self.provider_id@, self.api_key@, opt_view(self.base_url), opt_view(self.default_model), self.enabled)
    }
}

/// Masked settings as values: id, key set, base URL, default model, enabled.
pub type MaskedView = (Seq<char>, bool, Option<Seq<char>>, Option<Seq<char>>, bool);

impl View for MaskedProviderConfig {
    type V = MaskedView;

    open spec fn view(&self) -> MaskedView {
        (self.provider_id@, self.has_api_key, opt_view(self.base_url), opt_view(self.default_model), self.enabled)
    }
}

/// The masked form of provider settings.
pub open spec fn mask(p: ProviderView) -> MaskedView {
    (p.0, p.1.len() > 0, p.2, p.3, p.4)
}

/// The provider entries as values.
pub open spec fn providers_view(ps: Seq<ProviderConfig>) -> Seq<ProviderView> {
    ps.map_values(|p: ProviderConfig| p@)
}

/// No two entries share a provider id.
pub open spec fn ids_unique(ps: Seq<ProviderView>) -> bool {
    forall|i: int, j: int| 0 <= i < j < ps.len() ==> (#[trigger] ps[i]).0 != (#[trigger] ps[j]).0
}

/// The position of the entry for `id`, or -1.
pub open spec fn index_of(ps: Seq<ProviderView>, id: Seq<char>) -> int {
    if exists|i: int| 0 <= i < ps.len() && (#[trigger] ps[i]).0 == id {
        choose|i: int| 0 <= i < ps.len() && (#[trigger] ps[i]).0 == id
    } else {
        -1
    }
}

/// An entry after an update: each given field replaces the old one.
pub open spec fn apply_update(
    p: ProviderView,
    api_key: Option<Seq<char>>,
    base_url: Option<Seq<char>>,
    default_model: Option<Seq<char>>,
    enabled: Option<bool>,
) -> ProviderView {
    (
        p.0,
        match api_key { Some(k) => k, None => p.1 },
        match base_url { Some(u) => Some(u), None => p.2 },
        match default_model { Some(m) => Some(m), None => p.3 },
        match enabled { Some(e) => e, None => p.4 },
    )
}

impl AppConfig {
    /// The entries as values.
    pub open spec fn entries(&self) -> Seq<ProviderView> {
        providers_view(self.providers@)
    }

    pub open spec fn wf(&self) -> bool {
        ids_unique(self.entries())
    }
}

impl Default for GeneralConfig {
    fn default() -> (r: Self)
        ensures
            r.theme@ == "light"@,
            r.default_provider is None,
    {
        GeneralConfig { theme: String::from_str("light"), default_provider: None }
    }
}

impl Default for AppConfig {
    fn default() -> (r: Self)
        ensures
            r.providers.len() == 0,
            r.general.theme@ == "light"@,
            r.general.default_provider is None,
            r.wf(),
    {
        AppConfig { providers: Vec::new(), general: GeneralConfig::default() }
    }
}

fn clone_opt(o: &Option<String>) -> (r: Option<String>)
    ensures
        opt_view(r) == opt_view(*o),
{
    match o {
        Some(s) => Some(s.clone()),
        None => None,
    }
}

fn clone_provider(p: &ProviderConfig) -> (r: ProviderConfig)
    ensures
        r@ == p@,
{
    ProviderConfig {
        provider_id: p.provider_id.clone(),
        api_key: p.api_key.clone(),
        base_url: clone_opt(&p.base_url),
        default_model: clone_opt(&p.default_model),
        enabled: p.enabled,
    }
}

impl ProviderConfig {
    /// The settings with the key replaced by whether one is set.
    pub fn masked(&self) -> (r: MaskedProviderConfig)
        ensures
            r@ == mask(self@),
    {
        MaskedProviderConfig {
            provider_id: self.provider_id.clone(),
            has_api_key: !self.api_key.as_str().is_empty(),
            base_url: clone_opt(&self.base_url),
            default_model: clone_opt(&self.default_model),
            enabled: self.enabled,
        }
    }
}

/// Why the settings could not be read, written or queried.
pub enum ConfigError {
    IoError(String),
    SerializationError(String),
    EncryptionError(EncryptionError),
    KeychainError(KeychainError),
    ProviderNotFound(String),
}

/// Where the settings live and the key they are sealed under.
pub struct ConfigStore {
    config_path: String,
    master_key: Vec<u8>,
}

/// Position of the entry for `id` in `ps`, if any.
fn find_provider(ps: &Vec<ProviderConfig>, id: &str) -> (r: Option<usize>)
    requires
        ids_unique(providers_view(ps@)),
    ensures
        match r {
            Some(i) => i < ps.len() && i as int == index_of(providers_view(ps@), id@),
            None => index_of(providers_view(ps@), id@) == -1,
        },
{
    let target = String::from_str(id);
    let mut i: usize = 0;
    while i < ps.len()
        invariant
            i <= ps.len(),
            target@ == id@,
            ids_unique(providers_view(ps@)),
            forall|j: int| 0 <= j < i ==> (#[trigger] ps@[j]).provider_id@ != id@,
        decreases ps.len() - i,
    {
        if ps[i].provider_id == target {
            proof {
                let v = providers_view(ps@);
                assert(v[i as int].0 == id@);
                let k = index_of(v, id@);
                assert(0 <= k < v.len() && v[k].0 == id@);
                if k != i {
                    if k < i {
                        assert(v[k].0 != v[i as int].0);
                    } else {
                        assert(v[i as int].0 != v[k].0);
                    }
                }
            }
            return Some(i);
        }
        i = i + 1;
    }
    proof {
        let v = providers_view(ps@);
        assert(!exists|j: int| 0 <= j < v.len() && (#[trigger] v[j]).0 == id@) by {
            assert forall|j: int| 0 <= j < v.len() implies (#[trigger] v[j]).0 != id@ by {
                assert(ps@[j].provider_id@ != id@);
            }
        }
    }
    None
}

impl ConfigStore {
    /// A store for the settings file at `config_path`, sealed under `master_key`.
    pub fn new(config_path: String, master_key: Vec<u8>) -> (r: Self)
        ensures
            r.path()@ == config_path@,
            r.key()@ == master_key@,
    {
        ConfigStore { config_path, master_key }
    }

    /// The master key.
    pub closed spec fn key(&self) -> Vec<u8> {
        self.master_key
    }

    /// Where the sealed settings are kept.
    pub closed spec fn path(&self) -> String {
        self.config_path
    }

    /// Where the sealed settings are kept.
    pub fn config_path(&self) -> (r: &String)
        ensures
            r@ == self.path()@,
    {
        &self.config_path
    }

    /// The sealed text of the serialised settings `json`.
    pub fn seal(&self, json: &[u8]) -> (r: Result<String, ConfigError>)
        ensures
            r matches Ok(s) ==> decrypt_spec(s@, self.key()@) == Some(json@),
            r matches Err(e) ==> e is EncryptionError,
            self.key().len() != 32 ==> r == Err::<String, ConfigError>(
                ConfigError::EncryptionError(EncryptionError::InvalidKeyLength(self.key().len())),
            ),
            self.key().len() == 32 ==> (r is Err ==> r matches Err(
                ConfigError::EncryptionError(EncryptionError::EncryptionFailed(_)),
            )),
    {
        match encrypt(json, self.master_key.as_slice()) {
            Ok(s) => Ok(s),
            Err(e) => Err(ConfigError::EncryptionError(e)),
        }
    }

    /// The serialised settings held by the sealed text `sealed_text`.
    pub fn unseal(&self, sealed_text: &str) -> (r: Result<Vec<u8>, ConfigError>)
        ensures
            self.key().len() != 32 ==> r == Err::<Vec<u8>, ConfigError>(
                ConfigError::EncryptionError(EncryptionError::InvalidKeyLength(self.key().len())),
            ),
            self.key().len() == 32 ==> (r is Ok <==> decrypt_spec(sealed_text@, self.key()@) is Some),
            r matches Ok(b) ==> Some(b@) == decrypt_spec(sealed_text@, self.key()@),
            r matches Err(e) ==> e is EncryptionError,
    {
        match decrypt(sealed_text, self.master_key.as_slice()) {
            Ok(b) => Ok(b),
            Err(e) => Err(ConfigError::EncryptionError(e)),
        }
    }

    /// Sets the given fields of the entry for `provider_id`, adding an empty,
    /// disabled entry for it first when there is none.
    pub fn update_provider(
        &self,
        config: &mut AppConfig,
        provider_id: String,
        api_key: Option<String>,
        base_url: Option<String>,
        default_model: Option<String>,
        enabled: Option<bool>,
    )
        requires
            old(config).wf(),
        ensures
            final(config).wf(),
            final(config).general == old(config).general,
            ({
                let i = index_of(old(config).entries(), provider_id@);
                let upd = |p: ProviderView|
                    apply_update(p, opt_view(api_key), opt_view(base_url), opt_view(default_model), enabled);
                if i >= 0 {
                    final(config).entries() == old(config).entries().update(i, upd(old(config).entries()[i]))
                } else {
                    final(config).entries() == old(config).entries().push(
                        upd((provider_id@, Seq::empty(), None, None, false)),
                    )
                }
            }),
    {
        let ghost old_entries = config.entries();
        let ghost pid = provider_id@;
        let found = find_provider(&config.providers, provider_id.as_str());
        let mut entry = match found {
            Some(i) => clone_provider(&config.providers[i]),
            None => ProviderConfig {
                provider_id,
                api_key: String::new(),
                base_url: None,
                default_model: None,
                enabled: false,
            },
        };
        let ghost before = entry@;
        if let Some(k) = api_key {
            entry.api_key = k;
        }
        if let Some(u) = base_url {
            entry.base_url = Some(u);
        }
        if let Some(m) = default_model {
            entry.default_model = Some(m);
        }
        if let Some(e) = enabled {
            entry.enabled = e;
        }
        let ghost after = entry@;
        match found {
            Some(i) => {
                config.providers.set(i, entry);
                proof {
                    assert(config.entries() =~= old_entries.update(i as int, after));
                    assert forall|a: int, b: int| 0 <= a < b < config.entries().len() implies (
                    #[trigger] config.entries()[a]).0 != (#[trigger] config.entries()[b]).0 by {
                        assert(old_entries[a].0 != old_entries[b].0);
                    }
                }
            },
            None => {
                config.providers.push(entry);
                proof {
                    assert(config.entries() =~= old_entries.push(after));
                    assert forall|a: int, b: int| 0 <= a < b < config.entries().len() implies (
                    #[trigger] config.entries()[a]).0 != (#[trigger] config.entries()[b]).0 by {
                        if b == old_entries.len() {
                            assert(old_entries[a].0 != pid);
                        } else {
                            assert(old_entries[a].0 != old_entries[b].0);
                        }
                    }
                }
            },
        }
    }

    /// The settings of `provider_id`.
    pub fn get_provider(&self, config: &AppConfig, provider_id: &str) -> (r: Result<ProviderConfig, ConfigError>)
        requires
            config.wf(),
        ensures
            ({
                let i = index_of(config.entries(), provider_id@);
                if i >= 0 {
                    r matches Ok(p) && p@ == config.entries()[i]
                } else {
                    r matches Err(ConfigError::ProviderNotFound(id)) && id@ == provider_id@
                }
            }),
    {
        match find_provider(&config.providers, provider_id) {
            Some(i) => Ok(clone_provider(&config.providers[i])),
            None => Err(ConfigError::ProviderNotFound(String::from_str(provider_id))),
        }
    }

    /// The masked settings of every provider, in the order they are kept.
    pub fn get_all_providers_masked(&self, config: &AppConfig) -> (r: Vec<MaskedProviderConfig>)
        ensures
            r@.map_values(|m: MaskedProviderConfig| m@) == config.entries().map_values(
                |p: ProviderView| mask(p),
            ),
    {
        let mut r: Vec<MaskedProviderConfig> = Vec::new();
        let mut i: usize = 0;
        while i < config.providers.len()
            invariant
                i <= config.providers.len(),
                r.len() == i,
                forall|j: int| 0 <= j < i ==> (#[trigger] r@[j])@ == mask(config.providers@[j]@),
            decreases config.providers.len() - i,
        {
            r.push(config.providers[i].masked());
            i = i + 1;
        }
        proof {
            assert(r@.map_values(|m: MaskedProviderConfig| m@) =~= config.entries().map_values(
                |p: ProviderView| mask(p),
            ));
        }
        r
    }

    /// Removes the entry for `provider_id`, if there is one.
    pub fn delete_provider(&self, config: &mut AppConfig, provider_id: &str)
        requires
            old(config).wf(),
        ensures
            final(config).wf(),
            final(config).general == old(config).general,
            ({
                let i = index_of(old(config).entries(), provider_id@);
                if i >= 0 {
                    final(config).entries() == old(config).entries().remove(i)
                } else {
                    final(config).entries() == old(config).entries()
                }
            }),
    {
        let ghost old_entries = config.entries();
        if let Some(i) = find_provider(&config.providers, provider_id) {
            config.providers.remove(i);
            proof {
                assert(config.entries() =~= old_entries.remove(i as int));
                assert forall|a: int, b: int| 0 <= a < b < config.entries().len() implies (
                #[trigger] config.entries()[a]).0 != (#[trigger] config.entries()[b]).0 by {
                    let a0 = if a < i { a } else { a + 1 };
                    let b0 = if b < i { b } else { b + 1 };
                    assert(config.entries()[a] == old_entries[a0]);
                    assert(config.entries()[b] == old_entries[b0]);
                    assert(old_entries[a0].0 != old_entries[b0].0);
                }
            }
        }
    }
}

} // verus!
