//! The configuration: what is recorded, how it is encoded and where it is kept.

use crate::name_map::NameMap;
use crate::text;
use vstd::prelude::*;

verus! {

/// The whole configuration.
#[derive(Clone, Debug)]
pub struct Config {
    pub sources: NameMap<SourceConfig>,
    pub profiles: NameMap<StreamProfile>,
    pub storage: StorageConfig,
}

/// Where recordings and cached files are kept.
#[derive(Clone, Debug)]
pub struct StorageConfig {
    pub root: String,
    pub cache: String,
}

/// The clock that is laid over the picture.
#[derive(Clone, Debug)]
pub struct ClockParams {
    pub format: String,
    pub halignment: String,
    pub valignment: String,
    pub font: String,
}

/// A source of video.
#[derive(Clone, Debug)]
pub struct SourceConfig {
    pub source: String,
    pub profile: Option<String>,
    pub show: bool,
}

/// One of the encodings of a source.
#[derive(Clone, Debug)]
pub struct StreamCompressionParams {
    pub width: u32,
    pub height: u32,
    pub bitrate: u32,
    pub preset: String,
    pub tune: String,
    pub keyint: u32,
    pub segment_seconds: u32,
    pub record: bool,
}

/// How a source is decoded, and the encodings that are made of it.
#[derive(Clone, Debug)]
pub struct StreamProfile {
    pub clock: Option<ClockParams>,
    pub framerate: String,
    pub width: u32,
    pub height: u32,
    pub encode: NameMap<StreamCompressionParams>,
}

impl Default for StreamCompressionParams {
    fn default() -> (r: StreamCompressionParams)
        ensures
            r.width == 1920,
            r.height == 1080,
            r.bitrate == 8192,
            r.preset@ == "ultrafast"@,
            r.tune@ == "zerolatency"@,
            r.keyint == 30,
            r.segment_seconds == 5,
            r.record,
    {
        StreamCompressionParams {
            width: 1920,
            height: 1080,
            bitrate: 8192,
            preset: "ultrafast".to_owned(),
            tune: "zerolatency".to_owned(),
            keyint: 30,
            segment_seconds: 5,
            record: true,
        }
    }
}

impl Default for ClockParams {
    fn default() -> (r: ClockParams)
        ensures
            r.format@ == "${name} %D %H:%M:%S"@,
            r.halignment@ == "left"@,
            r.valignment@ == "bottom"@,
            r.font@ == "Sans, 12"@,
    {
        ClockParams {
            format: "${name} %D %H:%M:%S".to_owned(),
            halignment: "left".to_owned(),
            valignment: "bottom".to_owned(),
            font: "Sans, 12".to_owned(),
        }
    }
}

impl Default for StreamProfile {
    fn default() -> (r: StreamProfile)
        ensures
            r.clock matches Some(c) && c.format@ == "${name} %D %H:%M:%S"@ && c.halignment@
                == "left"@ && c.valignment@ == "bottom"@ && c.font@ == "Sans, 12"@,
            r.framerate@ == "30/1"@,
            r.width == 1920,
            r.height == 1080,
            r.encode.wf(),
            r.encode.entries@.len() == 0,
    {
        StreamProfile {
            clock: Some(ClockParams::default()),
            framerate: "30/1".to_owned(),
            width: 1920,
            height: 1080,
            encode: NameMap::new(),
        }
    }
}

/// What clients are told of the configuration.
#[derive(Clone, Debug)]
pub struct Info {
    pub sources: Vec<String>,
    pub profiles: Vec<String>,
}

/// The names of all encodings of a list of profiles, one profile after the other.
pub open spec fn encoding_names(profiles: Seq<StreamProfile>) -> Seq<Seq<char>>
    decreases profiles.len(),
{
    if profiles.len() == 0 {
        Seq::<Seq<char>>::empty()
    } else {
        encoding_names(profiles.drop_last()) + profiles.last().encode.names()
    }
}

/// The profile that a source names, or the one that it has without naming one.
pub open spec fn profile_name(source: SourceConfig) -> Seq<char> {
    match source.profile {
        Some(name) => name@,
        None => "default"@,
    }
}

impl Config {
    /// The profiles, in the order of their names.
    pub open spec fn profile_list(self) -> Seq<StreamProfile> {
        self.profiles.entries@.map_values(
            |e: crate::name_map::Entry<StreamProfile>| e.value,
        )
    }

    /// What clients are told: the names of the sources, and those of all encodings.
    pub fn info(&self) -> (r: Info)
        ensures
            text::texts(r.sources@) == self.sources.names(),
            text::texts(r.profiles@) == encoding_names(self.profile_list()),
    {
        let mut profiles: Vec<String> = Vec::new();
        let len = self.profiles.entries.len();
        let ghost all = self.profile_list();
        let mut k: usize = 0;
        assert(all.take(0) =~= Seq::<StreamProfile>::empty());
        assert(text::texts(profiles@) =~= Seq::<Seq<char>>::empty());
        while k < len
            invariant
                k <= len,
                len == self.profiles.entries@.len(),
                all == self.profile_list(),
                text::texts(profiles@) == encoding_names(all.take(k as int)),
            decreases len - k,
        {
            let ghost before = text::texts(profiles@);
            let mut names = self.profiles.entries[k].value.encode.keys();
            let ghost added = text::texts(names@);
            profiles.append(&mut names);
            assert(all.take(k + 1).drop_last() =~= all.take(k as int));
            assert(all.take(k + 1).last() == self.profiles.entries@[k as int].value);
            assert(text::texts(profiles@) =~= before + added);
            k = k + 1;
        }
        assert(all.take(len as int) =~= all);
        Info { sources: self.sources.keys(), profiles }
    }

    /// The profile of a source, or the name of the one that is missing.
    pub fn profile_for(&self, source: &SourceConfig) -> (r: Result<&StreamProfile, String>)
        requires
            self.profiles.wf(),
        ensures
            r is Ok <==> self.profiles.value_of(profile_name(*source)) is Some,
            r matches Ok(p) ==> Some(*p) == self.profiles.value_of(profile_name(*source)),
            r matches Err(name) ==> name@ == profile_name(*source),
    {
        let name = match &source.profile {
            Some(name) => name.clone(),
            None => "default".to_owned(),
        };
        match self.profiles.get(name.as_str()) {
            Some(profile) => Ok(profile),
            None => Err(name),
        }
    }
}

/// The encodings of one more profile are told behind those of the others, in their order.
pub proof fn law_one_more_profile(profiles: Seq<StreamProfile>, p: StreamProfile, k: int)
    ensures
        encoding_names(Seq::<StreamProfile>::empty()) == Seq::<Seq<char>>::empty(),
        encoding_names(profiles.push(p)).len() == encoding_names(profiles).len()
            + p.encode.entries@.len(),
        0 <= k < encoding_names(profiles).len() ==> encoding_names(profiles.push(p))[k]
            == encoding_names(profiles)[k],
        0 <= k < p.encode.entries@.len() ==> encoding_names(
            profiles.push(p),
        )[encoding_names(profiles).len() + k] == p.encode.entries@[k].name@,
{
    assert(profiles.push(p).drop_last() =~= profiles);
}

/// A source has the profile that it names, and the one named `default` where it names none.
pub proof fn law_profile_of_a_source(source: SourceConfig)
    ensures
        source.profile is None ==> profile_name(source) == "default"@,
        source.profile matches Some(name) ==> profile_name(source) == name@,
{
}

/// The profiles that are told of are those of the configuration, in their order.
pub proof fn law_all_profiles_are_told_of(config: Config, k: int)
    ensures
        config.profile_list().len() == config.profiles.entries@.len(),
        0 <= k < config.profiles.entries@.len() ==> config.profile_list()[k]
            == config.profiles.entries@[k].value,
{
}

} // verus!
