//! The presets the app ships with.
use vstd::prelude::*;
use crate::models::{
    ActionView, AppSettings, AppStateData, CriterionView, Preset, PresetView, Rule, RuleAction,
    RuleCriterion, RuleView, new_uuid, presets_view, texts,
};
use crate::text::owned;

verus! {

pub open spec fn str_views(v: Seq<&str>) -> Seq<Seq<char>> {
    v.map_values(|s: &str| s@)
}

/// The new strings of the given string slices.
fn owned_texts(values: &[&str]) -> (r: Vec<String>)
    ensures
        texts(r@) == str_views(values@),
{
    let mut r: Vec<String> = Vec::new();
    let mut i: usize = 0;
    while i < values.len()
        invariant
            i <= values.len(),
            texts(r@) == str_views(values@).take(i as int),
        decreases values.len() - i,
    {
        r.push(owned(values[i]));
        assert(str_views(values@).take(i + 1) =~= str_views(values@).take(i as int).push(
            values@[i as int]@,
        ));
        assert(texts(r@) =~= str_views(values@).take(i as int).push(values@[i as int]@));
        i += 1;
    }
    assert(str_views(values@).take(values.len() as int) =~= str_views(values@));
    r
}

/// An enabled rule, under `name`, that moves files with one of the given
/// extensions into `subdirectory`.
pub open spec fn extension_rule_view(
    r: RuleView,
    name: Seq<char>,
    values: Seq<Seq<char>>,
    subdirectory: Seq<char>,
) -> bool {
    &&& r.name == name
    &&& r.enabled
    &&& r.match_all
    &&& r.criteria == seq![CriterionView::Extension { values }]
    &&& r.action == (ActionView::MoveTo { subdirectory })
}

/// An enabled rule, with a new random identifier, that moves files with one
/// of the given extensions into `subdirectory`.
fn extension_rule(name: &str, values: &[&str], subdirectory: &str) -> (r: Rule)
    ensures
        extension_rule_view(r@, name@, str_views(values@), subdirectory@),
{
    let mut criteria: Vec<RuleCriterion> = Vec::new();
    criteria.push(RuleCriterion::Extension { values: owned_texts(values) });
    let r = Rule {
        id: new_uuid(),
        name: owned(name),
        enabled: true,
        match_all: true,
        criteria,
        action: RuleAction::MoveTo { subdirectory: owned(subdirectory) },
    };
    assert(r@.criteria =~= seq![CriterionView::Extension { values: str_views(values@) }]);
    r
}

fn preset(id: u128, name: &str, description: &str, rules: Vec<Rule>) -> (p: Preset)
    ensures
        p.id == id,
        p@.name == name@,
        p@.description == description@,
        p.rules@ == rules@,
{
    Preset { id, name: owned(name), description: owned(description), rules }
}

/// The identifiers of the bundled presets, in order.
pub open spec fn bundled_preset_ids() -> Seq<u128> {
    seq![0x11111111_1111_4111_8111_111111111101u128, 0x11111111_1111_4111_8111_111111111102u128, 0x11111111_1111_4111_8111_111111111103u128, 0x11111111_1111_4111_8111_111111111104u128]
}
pub open spec fn everyday_preset(p: PresetView) -> bool {
    &&& p.id == 0x11111111_1111_4111_8111_111111111101u128
    &&& p.name == "Everyday tidy"@
    &&& p.description == "Sort common documents, images, archives, audio, and video into clear folders."@
    &&& p.rules.len() == 5
    &&& extension_rule_view(
        p.rules[0],
        "Images"@,
        seq!["jpg"@, "jpeg"@, "png"@, "gif"@, "webp"@, "svg"@, "heic"@],
        "Images"@,
    )
    &&& extension_rule_view(
        p.rules[1],
        "Documents"@,
        seq!["pdf"@, "doc"@, "docx"@, "txt"@, "md"@, "rtf"@, "odt"@, "xls"@, "xlsx"@, "ppt"@, "pptx"@],
        "Documents"@,
    )
    &&& extension_rule_view(
        p.rules[2],
        "Archives"@,
        seq!["zip"@, "7z"@, "rar"@, "tar"@, "gz"@, "bz2"@, "xz"@],
        "Archives"@,
    )
    &&& extension_rule_view(
        p.rules[3],
        "Audio"@,
        seq!["mp3"@, "wav"@, "flac"@, "m4a"@, "aac"@, "ogg"@],
        "Audio"@,
    )
    &&& extension_rule_view(
        p.rules[4],
        "Video"@,
        seq!["mp4"@, "mkv"@, "mov"@, "webm"@, "avi"@, "m4v"@],
        "Video"@,
    )
}
fn everyday_rules() -> (r: Vec<Rule>)
    ensures
        r.len() == 5,
        extension_rule_view(r@[0]@, "Images"@, seq!["jpg"@, "jpeg"@, "png"@, "gif"@, "webp"@, "svg"@, "heic"@], "Images"@),
        extension_rule_view(r@[1]@, "Documents"@, seq!["pdf"@, "doc"@, "docx"@, "txt"@, "md"@, "rtf"@, "odt"@, "xls"@, "xlsx"@, "ppt"@, "pptx"@], "Documents"@),
        extension_rule_view(r@[2]@, "Archives"@, seq!["zip"@, "7z"@, "rar"@, "tar"@, "gz"@, "bz2"@, "xz"@], "Archives"@),
        extension_rule_view(r@[3]@, "Audio"@, seq!["mp3"@, "wav"@, "flac"@, "m4a"@, "aac"@, "ogg"@], "Audio"@),
        extension_rule_view(r@[4]@, "Video"@, seq!["mp4"@, "mkv"@, "mov"@, "webm"@, "avi"@, "m4v"@], "Video"@),
{
    let mut r: Vec<Rule> = Vec::new();
    {
        let values = ["jpg", "jpeg", "png", "gif", "webp", "svg", "heic"];
        let rule = extension_rule("Images", &values, "Images");
        assert(str_views(values@) =~= seq!["jpg"@, "jpeg"@, "png"@, "gif"@, "webp"@, "svg"@, "heic"@]);
        r.push(rule);
    }
    {
        let values = ["pdf", "doc", "docx", "txt", "md", "rtf", "odt", "xls", "xlsx", "ppt", "pptx"];
        let rule = extension_rule("Documents", &values, "Documents");
        assert(str_views(values@) =~= seq!["pdf"@, "doc"@, "docx"@, "txt"@, "md"@, "rtf"@, "odt"@, "xls"@, "xlsx"@, "ppt"@, "pptx"@]);
        r.push(rule);
    }
    {
        let values = ["zip", "7z", "rar", "tar", "gz", "bz2", "xz"];
        let rule = extension_rule("Archives", &values, "Archives");
        assert(str_views(values@) =~= seq!["zip"@, "7z"@, "rar"@, "tar"@, "gz"@, "bz2"@, "xz"@]);
        r.push(rule);
    }
    {
        let values = ["mp3", "wav", "flac", "m4a", "aac", "ogg"];
        let rule = extension_rule("Audio", &values, "Audio");
        assert(str_views(values@) =~= seq!["mp3"@, "wav"@, "flac"@, "m4a"@, "aac"@, "ogg"@]);
        r.push(rule);
    }
    {
        let values = ["mp4", "mkv", "mov", "webm", "avi", "m4v"];
        let rule = extension_rule("Video", &values, "Video");
        assert(str_views(values@) =~= seq!["mp4"@, "mkv"@, "mov"@, "webm"@, "avi"@, "m4v"@]);
        r.push(rule);
    }
    r
}
pub open spec fn media_preset(p: PresetView) -> bool {
    &&& p.id == 0x11111111_1111_4111_8111_111111111102u128
    &&& p.name == "Media library"@
    &&& p.description == "Group image, audio, and video files below a single Media folder."@
    &&& p.rules.len() == 3
    &&& extension_rule_view(
        p.rules[0],
        "Media images"@,
        seq!["jpg"@, "jpeg"@, "png"@, "gif"@, "webp"@, "svg"@, "heic"@, "avif"@],
        "Media/Images"@,
    )
    &&& extension_rule_view(
        p.rules[1],
        "Media audio"@,
        seq!["mp3"@, "wav"@, "flac"@, "m4a"@, "aac"@, "ogg"@, "opus"@],
        "Media/Audio"@,
    )
    &&& extension_rule_view(
        p.rules[2],
        "Media video"@,
        seq!["mp4"@, "mkv"@, "mov"@, "webm"@, "avi"@, "m4v"@],
        "Media/Video"@,
    )
}
fn media_rules() -> (r: Vec<Rule>)
    ensures
        r.len() == 3,
        extension_rule_view(r@[0]@, "Media images"@, seq!["jpg"@, "jpeg"@, "png"@, "gif"@, "webp"@, "svg"@, "heic"@, "avif"@], "Media/Images"@),
        extension_rule_view(r@[1]@, "Media audio"@, seq!["mp3"@, "wav"@, "flac"@, "m4a"@, "aac"@, "ogg"@, "opus"@], "Media/Audio"@),
        extension_rule_view(r@[2]@, "Media video"@, seq!["mp4"@, "mkv"@, "mov"@, "webm"@, "avi"@, "m4v"@], "Media/Video"@),
{
    let mut r: Vec<Rule> = Vec::new();
    {
        let values = ["jpg", "jpeg", "png", "gif", "webp", "svg", "heic", "avif"];
        let rule = extension_rule("Media images", &values, "Media/Images");
        assert(str_views(values@) =~= seq!["jpg"@, "jpeg"@, "png"@, "gif"@, "webp"@, "svg"@, "heic"@, "avif"@]);
        r.push(rule);
    }
    {
        let values = ["mp3", "wav", "flac", "m4a", "aac", "ogg", "opus"];
        let rule = extension_rule("Media audio", &values, "Media/Audio");
        assert(str_views(values@) =~= seq!["mp3"@, "wav"@, "flac"@, "m4a"@, "aac"@, "ogg"@, "opus"@]);
        r.push(rule);
    }
    {
        let values = ["mp4", "mkv", "mov", "webm", "avi", "m4v"];
        let rule = extension_rule("Media video", &values, "Media/Video");
        assert(str_views(values@) =~= seq!["mp4"@, "mkv"@, "mov"@, "webm"@, "avi"@, "m4v"@]);
        r.push(rule);
    }
    r
}
pub open spec fn developer_preset(p: PresetView) -> bool {
    &&& p.id == 0x11111111_1111_4111_8111_111111111103u128
    &&& p.name == "Developer workspace"@
    &&& p.description == "Separate common source, data/configuration, and package files for project staging folders."@
    &&& p.rules.len() == 3
    &&& extension_rule_view(
        p.rules[0],
        "Source code"@,
        seq!["rs"@, "ts"@, "tsx"@, "js"@, "jsx"@, "py"@, "java"@, "kt"@, "swift"@, "go"@, "php"@, "cs"@, "cpp"@, "c"@, "h"@, "hpp"@],
        "Development/Source"@,
    )
    &&& extension_rule_view(
        p.rules[1],
        "Data and configuration"@,
        seq!["json"@, "yaml"@, "yml"@, "toml"@, "xml"@, "csv"@, "ini"@, "env"@],
        "Development/Data"@,
    )
    &&& extension_rule_view(
        p.rules[2],
        "Packages and archives"@,
        seq!["zip"@, "7z"@, "tar"@, "gz"@, "tgz"@, "bz2"@, "xz"@],
        "Development/Packages"@,
    )
}
fn developer_rules() -> (r: Vec<Rule>)
    ensures
        r.len() == 3,
        extension_rule_view(r@[0]@, "Source code"@, seq!["rs"@, "ts"@, "tsx"@, "js"@, "jsx"@, "py"@, "java"@, "kt"@, "swift"@, "go"@, "php"@, "cs"@, "cpp"@, "c"@, "h"@, "hpp"@], "Development/Source"@),
        extension_rule_view(r@[1]@, "Data and configuration"@, seq!["json"@, "yaml"@, "yml"@, "toml"@, "xml"@, "csv"@, "ini"@, "env"@], "Development/Data"@),
        extension_rule_view(r@[2]@, "Packages and archives"@, seq!["zip"@, "7z"@, "tar"@, "gz"@, "tgz"@, "bz2"@, "xz"@], "Development/Packages"@),
{
    let mut r: Vec<Rule> = Vec::new();
    {
        let values = ["rs", "ts", "tsx", "js", "jsx", "py", "java", "kt", "swift", "go", "php", "cs", "cpp", "c", "h", "hpp"];
        let rule = extension_rule("Source code", &values, "Development/Source");
        assert(str_views(values@) =~= seq!["rs"@, "ts"@, "tsx"@, "js"@, "jsx"@, "py"@, "java"@, "kt"@, "swift"@, "go"@, "php"@, "cs"@, "cpp"@, "c"@, "h"@, "hpp"@]);
        r.push(rule);
    }
    {
        let values = ["json", "yaml", "yml", "toml", "xml", "csv", "ini", "env"];
        let rule = extension_rule("Data and configuration", &values, "Development/Data");
        assert(str_views(values@) =~= seq!["json"@, "yaml"@, "yml"@, "toml"@, "xml"@, "csv"@, "ini"@, "env"@]);
        r.push(rule);
    }
    {
        let values = ["zip", "7z", "tar", "gz", "tgz", "bz2", "xz"];
        let rule = extension_rule("Packages and archives", &values, "Development/Packages");
        assert(str_views(values@) =~= seq!["zip"@, "7z"@, "tar"@, "gz"@, "tgz"@, "bz2"@, "xz"@]);
        r.push(rule);
    }
    r
}
pub open spec fn downloads_preset(p: PresetView) -> bool {
    &&& p.id == 0x11111111_1111_4111_8111_111111111104u128
    &&& p.name == "Downloads cleanup"@
    &&& p.description == "Tidy common downloads into installers, archives, documents, and images."@
    &&& p.rules.len() == 4
    &&& extension_rule_view(
        p.rules[0],
        "Installers"@,
        seq!["exe"@, "msi"@, "msix"@, "dmg"@, "pkg"@, "deb"@, "rpm"@, "appimage"@],
        "Installers"@,
    )
    &&& extension_rule_view(
        p.rules[1],
        "Downloaded archives"@,
        seq!["zip"@, "7z"@, "rar"@, "tar"@, "gz"@, "bz2"@, "xz"@],
        "Archives"@,
    )
    &&& extension_rule_view(
        p.rules[2],
        "Downloaded documents"@,
        seq!["pdf"@, "doc"@, "docx"@, "txt"@, "md"@, "rtf"@, "odt"@, "xls"@, "xlsx"@, "ppt"@, "pptx"@],
        "Documents"@,
    )
    &&& extension_rule_view(
        p.rules[3],
        "Downloaded images"@,
        seq!["jpg"@, "jpeg"@, "png"@, "gif"@, "webp"@, "svg"@, "heic"@, "avif"@],
        "Images"@,
    )
}
fn downloads_rules() -> (r: Vec<Rule>)
    ensures
        r.len() == 4,
        extension_rule_view(r@[0]@, "Installers"@, seq!["exe"@, "msi"@, "msix"@, "dmg"@, "pkg"@, "deb"@, "rpm"@, "appimage"@], "Installers"@),
        extension_rule_view(r@[1]@, "Downloaded archives"@, seq!["zip"@, "7z"@, "rar"@, "tar"@, "gz"@, "bz2"@, "xz"@], "Archives"@),
        extension_rule_view(r@[2]@, "Downloaded documents"@, seq!["pdf"@, "doc"@, "docx"@, "txt"@, "md"@, "rtf"@, "odt"@, "xls"@, "xlsx"@, "ppt"@, "pptx"@], "Documents"@),
        extension_rule_view(r@[3]@, "Downloaded images"@, seq!["jpg"@, "jpeg"@, "png"@, "gif"@, "webp"@, "svg"@, "heic"@, "avif"@], "Images"@),
{
    let mut r: Vec<Rule> = Vec::new();
    {
        let values = ["exe", "msi", "msix", "dmg", "pkg", "deb", "rpm", "appimage"];
        let rule = extension_rule("Installers", &values, "Installers");
        assert(str_views(values@) =~= seq!["exe"@, "msi"@, "msix"@, "dmg"@, "pkg"@, "deb"@, "rpm"@, "appimage"@]);
        r.push(rule);
    }
    {
        let values = ["zip", "7z", "rar", "tar", "gz", "bz2", "xz"];
        let rule = extension_rule("Downloaded archives", &values, "Archives");
        assert(str_views(values@) =~= seq!["zip"@, "7z"@, "rar"@, "tar"@, "gz"@, "bz2"@, "xz"@]);
        r.push(rule);
    }
    {
        let values = ["pdf", "doc", "docx", "txt", "md", "rtf", "odt", "xls", "xlsx", "ppt", "pptx"];
        let rule = extension_rule("Downloaded documents", &values, "Documents");
        assert(str_views(values@) =~= seq!["pdf"@, "doc"@, "docx"@, "txt"@, "md"@, "rtf"@, "odt"@, "xls"@, "xlsx"@, "ppt"@, "pptx"@]);
        r.push(rule);
    }
    {
        let values = ["jpg", "jpeg", "png", "gif", "webp", "svg", "heic", "avif"];
        let rule = extension_rule("Downloaded images", &values, "Images");
        assert(str_views(values@) =~= seq!["jpg"@, "jpeg"@, "png"@, "gif"@, "webp"@, "svg"@, "heic"@, "avif"@]);
        r.push(rule);
    }
    r
}
/// The four presets the app ships with: everyday tidying, a media library,
/// a developer workspace and downloads cleanup. Their identifiers are
/// fixed; each rule gets a new random identifier.
pub open spec fn bundled_presets(ps: Seq<PresetView>) -> bool {
    &&& ps.len() == 4
    &&& everyday_preset(ps[0])
    &&& media_preset(ps[1])
    &&& developer_preset(ps[2])
    &&& downloads_preset(ps[3])
}

/// The presets the app ships with.
pub fn default_presets() -> (r: Vec<Preset>)
    ensures
        bundled_presets(presets_view(r@)),
        presets_view(r@).map_values(|p: PresetView| p.id) == bundled_preset_ids(),
{
    let mut r: Vec<Preset> = Vec::new();
    r.push(preset(0x11111111_1111_4111_8111_111111111101u128, "Everyday tidy", "Sort common documents, images, archives, audio, and video into clear folders.", everyday_rules()));
    r.push(preset(0x11111111_1111_4111_8111_111111111102u128, "Media library", "Group image, audio, and video files below a single Media folder.", media_rules()));
    r.push(preset(0x11111111_1111_4111_8111_111111111103u128, "Developer workspace", "Separate common source, data/configuration, and package files for project staging folders.", developer_rules()));
    r.push(preset(0x11111111_1111_4111_8111_111111111104u128, "Downloads cleanup", "Tidy common downloads into installers, archives, documents, and images.", downloads_rules()));
    assert(presets_view(r@).map_values(|p: PresetView| p.id) =~= bundled_preset_ids());
    r
}

/// Law: the bundled presets' identifiers are distinct.
pub proof fn law_bundled_preset_ids_are_distinct()
    ensures
        forall|i: int, j: int|
            0 <= i < j < bundled_preset_ids().len() ==> bundled_preset_ids()[i]
                != bundled_preset_ids()[j],
{
}

impl Default for AppStateData {
    /// Schema version 1, the default settings, no rules of the user's own,
    /// the bundled presets, no watched folders and no undo history.
    fn default() -> (r: AppStateData)
        ensures
            r@.schema_version == 1,
            r@.settings.theme == "system"@,
            !r@.settings.reduced_motion,
            r@.settings.confirm_before_apply,
            !r@.settings.include_hidden,
            !r@.settings.recursive_scan,
            r@.rules.len() == 0,
            bundled_presets(r@.presets),
            r@.watched_folders.len() == 0,
            r@.recent_journal_ids.len() == 0,
    {
        AppStateData {
            schema_version: 1,
            settings: AppSettings::default(),
            rules: Vec::new(),
            presets: default_presets(),
            watched_folders: Vec::new(),
            recent_journal_ids: Vec::new(),
        }
    }
}

} // verus!
