//! Records of the workspace: how a version of an image came about and how
//! results are exported.

use vstd::prelude::*;
use vstd::string::StrSliceExecFns;
use sha2::{Digest, Sha256};
use crate::processor::OutlineSettings;

verus! {

/// The kind of processing that made a version.
#[derive(Debug, Clone, Copy, PartialEq, Eq, Structural)]
pub enum VersionType {
    /// The image as it was given.
    Original,
    /// Sampled on the recovered grid.
    Downscaled,
    /// Opacity, colours or outline were changed.
    PostProcessed,
}

/// The settings that made a downscaled version.
#[derive(Debug, Clone, Copy)]
pub struct DownscaleSettings {
    pub detected_scale: u32,
    pub auto_trim: bool,
    /// The canvas unit, where the result was padded.
    pub pad_canvas: Option<u32>,
}

/// What kind of image a source is taken for.
#[derive(Debug, Clone, Copy, PartialEq, Eq, Structural)]
pub enum SourceType {
    /// Upscaled pixel art whose grid is to be recovered.
    AiUpscaled,
    /// Pixel art at its native size.
    NativePixelArt,
    Unknown,
}

/// How exported files are named.
#[derive(Debug, Clone)]
pub enum ExportNaming {
    /// Under the name of the source.
    Same,
    /// Under the name of the source followed by this suffix.
    Suffix(String),
}

impl Default for ExportNaming {
    fn default() -> (naming: Self)
        ensures
            naming is Same,
    {
        ExportNaming::Same
    }
}

/// Where and under which names results are exported.
#[derive(Debug, Clone)]
pub struct ExportSettings {
    pub destination: Option<String>,
    pub naming: ExportNaming,
}

impl Default for ExportSettings {
    fn default() -> (settings: Self)
        ensures
            settings.destination is None,
            settings.naming is Same,
    {
        ExportSettings { destination: None, naming: ExportNaming::Same }
    }
}

/// Whether and how a preview is sampled on the grid.
#[derive(Debug, Clone, Copy)]
pub struct PreviewDownscaleSettings {
    pub enabled: bool,
    pub auto_trim: bool,
    /// Width of the result, where it is not to be detected.
    pub target_width: Option<u32>,
    /// Height of the result, where it is not to be detected.
    pub target_height: Option<u32>,
}

/// The SHA-256 digest of the bytes, written as 64 lower-case hexadecimal
/// digits.
pub uninterp spec fn sha256_hex(data: Seq<u8>) -> Seq<char>;

/// Number of bytes from which on the hash counts more bits than 64 bits can
/// hold: `2^61`.
pub const HASH_LIMIT: u64 = 0x2000_0000_0000_0000;

/// The hash of the content of a file: `Sha256::digest` of the sha2 crate,
/// with the digest of 32 bytes formatted by `{:x}`, two digits for each
/// byte. The contract names the result and gives its length; that different
/// contents have different hashes is not claimed. The hash counts the bits
/// of its input in 64 bits, so the input must be shorter than `2^61` bytes.
#[verifier::external_body]
pub fn hash_bytes(data: &[u8]) -> (digest: String)
    requires
        data@.len() < HASH_LIMIT,
    ensures
        digest@ == sha256_hex(data@),
        digest@.len() == 64,
{
    format!("{:x}", Sha256::digest(data))
}

/// `String::push_str` appends the slice to the string.
pub assume_specification[ String::push_str ](s: &mut String, string: &str)
    ensures
        final(s)@ == old(s)@ + string@,
;

/// Name under which the content of a source is kept before the source is
/// overwritten: the first 16 digits of its hash, followed by
/// `_original.png`.
pub fn backup_name(content: &[u8]) -> (name: String)
    requires
        content@.len() < HASH_LIMIT,
    ensures
        name@ == sha256_hex(content@).subrange(0, 16) + "_original.png"@,
{
    let digest = hash_bytes(content);
    let mut name = digest.as_str().substring_char(0, 16).to_owned();
    name.push_str("_original.png");
    name
}

/// Name of the cached image of a version: the first 12 digits of the hash of
/// the source, an underscore, the version, the suffix, and `.png`.
pub fn cache_filename(source_hash: &str, version_id: &str, suffix: &str) -> (name: String)
    requires
        source_hash.is_ascii(),
        source_hash@.len() >= 12,
    ensures
        name@ == source_hash@.subrange(0, 12) + "_"@ + version_id@ + suffix@ + ".png"@,
{
    let mut name = source_hash.substring_ascii(0, 12).to_owned();
    name.push_str("_");
    name.push_str(version_id);
    name.push_str(suffix);
    name.push_str(".png");
    name
}

/// `String::push` appends the character to the string.
pub assume_specification[ String::push ](s: &mut String, ch: char)
    ensures
        final(s)@ == old(s)@.push(ch),
;

/// The character of a decimal digit.
pub open spec fn digit_char(d: int) -> char {
    (48 + d) as u8 as char
}

/// The decimal digits of a number, the most significant first.
pub open spec fn decimal_digits(n: nat) -> Seq<char>
    decreases n,
{
    if n < 10 {
        seq![digit_char(n as int)]
    } else {
        decimal_digits(n / 10).push(digit_char((n % 10) as int))
    }
}

/// Writes a number in decimal digits.
pub fn decimal(n: usize) -> (text: String)
    ensures
        text@ == decimal_digits(n as nat),
{
    let mut low: Vec<char> = Vec::new();
    let mut rest: usize = n;
    proof {
        assert(decimal_digits(n as nat) =~= decimal_digits(rest as nat) + reversed(low@));
    }
    while rest >= 10
        invariant
            decimal_digits(n as nat) == decimal_digits(rest as nat) + reversed(low@),
        decreases rest,
    {
        let ghost before = low@;
        let ghost r = rest as nat;
        let d: u8 = (rest % 10) as u8;
        let c: char = (48 + d) as char;
        low.push(c);
        rest = rest / 10;
        proof {
            assert(c == digit_char((r % 10) as int));
            lemma_reversed_push(before, c);
            assert(decimal_digits(r) == decimal_digits(r / 10).push(c));
            assert(decimal_digits(r / 10).push(c) + reversed(before) =~= decimal_digits(r / 10) + (seq![c] + reversed(
                before,
            )));
        }
    }
    let first: u8 = rest as u8;
    let mut text: String = String::new();
    text.push((48 + first) as char);
    let mut i: usize = low.len();
    proof {
        assert(low@.subrange(i as int, low@.len() as int) =~= Seq::<char>::empty());
        assert(text@ =~= decimal_digits(rest as nat) + reversed(low@.subrange(i as int, low@.len() as int)));
    }
    while i > 0
        invariant
            i <= low@.len(),
            text@ == decimal_digits(rest as nat) + reversed(low@.subrange(i as int, low@.len() as int)),
        decreases i,
    {
        i = i - 1;
        proof {
            let shorter = low@.subrange(i as int + 1, low@.len() as int);
            let longer = low@.subrange(i as int, low@.len() as int);
            assert(longer.subrange(1, longer.len() as int) =~= shorter);
            assert(reversed(longer) == reversed(shorter).push(low@[i as int]));
            assert((decimal_digits(rest as nat) + reversed(shorter)).push(low@[i as int]) =~= decimal_digits(
                rest as nat,
            ) + reversed(longer));
        }
        text.push(low[i]);
    }
    proof {
        assert(low@.subrange(0, low@.len() as int) =~= low@);
    }
    text
}

/// The sequence in reverse order.
pub open spec fn reversed(s: Seq<char>) -> Seq<char>
    decreases s.len(),
{
    if s.len() == 0 {
        Seq::empty()
    } else {
        reversed(s.subrange(1, s.len() as int)).push(s[0])
    }
}

proof fn lemma_reversed_push(s: Seq<char>, c: char)
    ensures
        reversed(s.push(c)) == seq![c] + reversed(s),
    decreases s.len(),
{
    let t = s.push(c);
    let tail = t.subrange(1, t.len() as int);
    assert(reversed(t) == reversed(tail).push(t[0]));
    if s.len() == 0 {
        assert(tail =~= Seq::<char>::empty());
        assert(reversed(tail) =~= Seq::<char>::empty());
        assert(reversed(s) =~= Seq::<char>::empty());
        assert(reversed(t) =~= seq![c] + reversed(s));
    } else {
        let rest = s.subrange(1, s.len() as int);
        lemma_reversed_push(rest, c);
        assert(tail =~= rest.push(c));
        assert(reversed(s) == reversed(rest).push(s[0]));
        assert(reversed(t) =~= seq![c] + reversed(s));
    }
}

/// The settings that made a post-processed version.
#[derive(Debug, Clone)]
pub struct PostProcessSettings {
    pub alpha_enabled: bool,
    pub alpha_low_cutoff: Option<u8>,
    pub alpha_high_min: Option<u8>,
    pub merge_enabled: bool,
    /// The threshold of the colour merge, a number in single precision, as
    /// its bit pattern.
    pub merge_threshold_bits: Option<u32>,
    pub outline_enabled: bool,
    pub outline_color: Option<(u8, u8, u8, u8)>,
    pub outline_thickness: Option<u32>,
}

/// One version of an image in the tree of its versions.
#[derive(Debug, Clone)]
pub struct ImageVersion {
    /// `v1`, `v2` and so on.
    pub id: String,
    pub version_type: VersionType,
    /// Path of the cached image below the cache folder.
    pub cache_path: Option<String>,
    /// The version that this one was made from; none for the first.
    pub parent: Option<String>,
    pub post_process_settings: Option<PostProcessSettings>,
    pub downscale_settings: Option<DownscaleSettings>,
    /// Time of making, in ISO 8601.
    pub created: String,
}

/// The state of one source image.
#[derive(Debug, Clone)]
pub struct SourceState {
    /// Hash of the content of the file.
    pub hash: String,
    pub detected_type: SourceType,
    pub detected_scale: Option<u32>,
    pub versions: Vec<ImageVersion>,
    /// The version that is shown.
    pub current_version: String,
}

impl SourceState {
    /// The state of a source that was just found: one version, `v1`, the
    /// image as it is, of unknown kind.
    pub open spec fn fresh(self) -> bool {
        &&& self.detected_type == SourceType::Unknown
        &&& self.detected_scale is None
        &&& self.current_version@ == "v1"@
        &&& self.versions@.len() == 1
        &&& self.versions@[0].id@ == "v1"@
        &&& self.versions@[0].version_type == VersionType::Original
        &&& self.versions@[0].cache_path is None
        &&& self.versions@[0].parent is None
        &&& self.versions@[0].post_process_settings is None
        &&& self.versions@[0].downscale_settings is None
    }

    /// The state of a source with the given hash that was found at the time
    /// `created`: one version, `v1`, the image as it is.
    pub fn new(hash: String, created: String) -> (state: Self)
        ensures
            state.fresh(),
            state.hash@ == hash@,
            state.versions@[0].created@ == created@,
    {
        let mut versions: Vec<ImageVersion> = Vec::new();
        versions.push(
            ImageVersion {
                id: "v1".to_owned(),
                version_type: VersionType::Original,
                cache_path: None,
                parent: None,
                post_process_settings: None,
                downscale_settings: None,
                created,
            },
        );
        SourceState {
            hash,
            detected_type: SourceType::Unknown,
            detected_scale: None,
            versions,
            current_version: "v1".to_owned(),
        }
    }

    /// The name of the version that comes next: `v` and the number of
    /// versions plus one.
    pub fn next_version_id(&self) -> (id: String)
        requires
            self.versions@.len() < usize::MAX,
        ensures
            id@ == seq!['v'] + decimal_digits((self.versions@.len() + 1) as nat),
    {
        let mut id: String = String::new();
        id.push('v');
        let number = decimal(self.versions.len() + 1);
        id.push_str(number.as_str());
        id
    }

    /// `i` is the first version with the name `id`.
    pub open spec fn is_version(self, id: Seq<char>, i: int) -> bool {
        &&& 0 <= i < self.versions@.len()
        &&& self.versions@[i].id@ == id
        &&& forall|j: int| 0 <= j < i ==> (#[trigger] self.versions@[j]).id@ != id
    }

    /// The first version with the given name.
    pub fn get_version(&self, id: &str) -> (found: Option<&ImageVersion>)
        ensures
            found is None ==> forall|j: int| 0 <= j < self.versions@.len() ==> (#[trigger] self.versions@[j]).id@ != id@,
            found is Some ==> exists|i: int| #[trigger] self.is_version(id@, i) && *found->0 == self.versions@[i],
    {
        let wanted: String = id.to_owned();
        let mut i: usize = 0;
        while i < self.versions.len()
            invariant
                i <= self.versions@.len(),
                wanted@ == id@,
                forall|j: int| 0 <= j < i ==> (#[trigger] self.versions@[j]).id@ != id@,
            decreases self.versions@.len() - i,
        {
            if self.versions[i].id == wanted {
                assert(self.is_version(id@, i as int));
                return Some(&self.versions[i]);
            }
            i = i + 1;
        }
        None
    }

    /// Appends a version.
    pub fn add_version(&mut self, version: ImageVersion)
        ensures
            final(self).versions@ == old(self).versions@.push(version),
            final(self).hash == old(self).hash,
            final(self).detected_type == old(self).detected_type,
            final(self).detected_scale == old(self).detected_scale,
            final(self).current_version == old(self).current_version,
    {
        self.versions.push(version);
    }
}

/// Settings that new versions start from.
#[derive(Debug, Clone, Copy)]
pub struct GlobalSettings {
    /// The threshold of the colour merge, a number in single precision, as
    /// its bit pattern.
    pub merge_threshold_bits: u32,
    pub outline_color: (u8, u8, u8, u8),
    pub outline_thickness: u32,
}

/// The bit pattern of the number 3 in single precision.
pub const THREE: u32 = 0x4040_0000;

impl Default for GlobalSettings {
    fn default() -> (settings: Self)
        ensures
            settings.merge_threshold_bits == THREE,
            settings.outline_color == OutlineSettings::standard().color,
            settings.outline_thickness == 1,
    {
        GlobalSettings { merge_threshold_bits: THREE, outline_color: (17, 6, 2, 255), outline_thickness: 1 }
    }
}

/// The state of a workspace: its sources by their path below the workspace,
/// and its settings.
#[derive(Debug, Clone)]
pub struct WorkspaceState {
    /// Version of the layout of the state.
    pub version: u32,
    /// The folder of the workspace.
    pub workspace: String,
    /// Path and state of each source; no path occurs twice.
    pub sources: Vec<(String, SourceState)>,
    pub global_settings: GlobalSettings,
    pub export_settings: ExportSettings,
}

impl WorkspaceState {
    /// No path occurs twice among the sources.
    pub open spec fn wf(self) -> bool {
        forall|i: int, j: int|
            0 <= i < j < self.sources@.len() ==> (#[trigger] self.sources@[i]).0@ != (#[trigger] self.sources@[j]).0@
    }

    /// The workspace has a source with this path.
    pub open spec fn has_source(self, path: Seq<char>) -> bool {
        exists|i: int| 0 <= i < self.sources@.len() && (#[trigger] self.sources@[i]).0@ == path
    }

    /// The state of a workspace without sources, with the settings that new
    /// workspaces start from.
    pub fn new(workspace_path: &str) -> (state: Self)
        ensures
            state.wf(),
            state.version == 1,
            state.workspace@ == workspace_path@,
            state.sources@.len() == 0,
            state.global_settings.merge_threshold_bits == THREE,
            state.global_settings.outline_color == OutlineSettings::standard().color,
            state.global_settings.outline_thickness == 1,
            state.export_settings.destination is None,
            state.export_settings.naming is Same,
    {
        WorkspaceState {
            version: 1,
            workspace: workspace_path.to_owned(),
            sources: Vec::new(),
            global_settings: GlobalSettings::default(),
            export_settings: ExportSettings::default(),
        }
    }

    /// Where the source with the given path stands, if the workspace has it.
    pub fn find_source(&self, relative_path: &str) -> (found: Option<usize>)
        ensures
            found is None <==> !self.has_source(relative_path@),
            found is Some ==> found->0 < self.sources@.len() && self.sources@[found->0 as int].0@ == relative_path@,
    {
        let wanted: String = relative_path.to_owned();
        let mut i: usize = 0;
        while i < self.sources.len()
            invariant
                i <= self.sources@.len(),
                wanted@ == relative_path@,
                forall|j: int| 0 <= j < i ==> (#[trigger] self.sources@[j]).0@ != relative_path@,
            decreases self.sources@.len() - i,
        {
            if self.sources[i].0 == wanted {
                return Some(i);
            }
            i = i + 1;
        }
        None
    }

    /// Adds a source that the workspace does not have yet, and says where it
    /// stands.
    pub fn add_source(&mut self, relative_path: String, source: SourceState) -> (index: usize)
        requires
            old(self).wf(),
            !old(self).has_source(relative_path@),
        ensures
            final(self).wf(),
            final(self).sources@ == old(self).sources@.push((relative_path, source)),
            index == old(self).sources@.len(),
            final(self).has_source(relative_path@),
            final(self).version == old(self).version,
            final(self).workspace == old(self).workspace,
            final(self).global_settings == old(self).global_settings,
            final(self).export_settings == old(self).export_settings,
    {
        let index: usize = self.sources.len();
        let ghost before = self.sources@;
        self.sources.push((relative_path, source));
        proof {
            assert(self.sources@[index as int].0@ == relative_path@);
            assert forall|i: int, j: int| 0 <= i < j < self.sources@.len() implies (#[trigger] self.sources@[i]).0@ != (
            #[trigger] self.sources@[j]).0@ by {
                if j < before.len() {
                    assert(self.sources@[i] == before[i] && self.sources@[j] == before[j]);
                } else {
                    assert(self.sources@[i] == before[i]);
                }
            }
        }
        index
    }
}

} // verus!
