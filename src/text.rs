use vstd::prelude::*;

verus! {

/// The desktop platforms that have a default interface font.
#[derive(Debug, Clone, Copy, PartialEq, Eq, Structural)]
pub enum Platform {
    Windows,
    MacOs,
    Linux,
}

/// Names of the default interface font families.
pub struct FontFamily;

impl FontFamily {
    pub fn ui_windows() -> (r: String)
        ensures
            r@ == "Segoe UI"@,
    {
        "Segoe UI".to_owned()
    }

    pub fn ui_cjk_windows() -> (r: String)
        ensures
            r@ == "Microsoft YaHei"@,
    {
        "Microsoft YaHei".to_owned()
    }

    pub fn ui_macos() -> (r: String)
        ensures
            r@ == "Helvetica"@,
    {
        "Helvetica".to_owned()
    }

    pub fn ui_cjk_macos() -> (r: String)
        ensures
            r@ == "PingFang SC"@,
    {
        "PingFang SC".to_owned()
    }

    pub fn ui_linux() -> (r: String)
        ensures
            r@ == "Noto Sans"@,
    {
        "Noto Sans".to_owned()
    }

    pub fn ui_cjk_linux() -> (r: String)
        ensures
            r@ == "Noto Sans CJK SC"@,
    {
        "Noto Sans CJK SC".to_owned()
    }

    /// The interface font family of `platform`.
    pub fn ui(platform: Platform) -> (r: String)
        ensures
            r@ == (match platform {
                Platform::Windows => "Segoe UI"@,
                Platform::MacOs => "Helvetica"@,
                Platform::Linux => "Noto Sans"@,
            }),
    {
        match platform {
            Platform::Windows => FontFamily::ui_windows(),
            Platform::MacOs => FontFamily::ui_macos(),
            Platform::Linux => FontFamily::ui_linux(),
        }
    }

    /// The interface font family of `platform` for CJK text.
    pub fn ui_cjk(platform: Platform) -> (r: String)
        ensures
            r@ == (match platform {
                Platform::Windows => "Microsoft YaHei"@,
                Platform::MacOs => "PingFang SC"@,
                Platform::Linux => "Noto Sans CJK SC"@,
            }),
    {
        match platform {
            Platform::Windows => FontFamily::ui_cjk_windows(),
            Platform::MacOs => FontFamily::ui_cjk_macos(),
            Platform::Linux => FontFamily::ui_cjk_linux(),
        }
    }
}

#[derive(Debug, Clone, Copy, PartialEq, Eq, Structural)]
pub enum FontSlant {
    Upright,
    Italic,
    Oblique,
}

/// How a run of text is placed relative to its anchor point.
#[derive(Debug, Clone, Copy, PartialEq, Eq, Structural)]
pub enum TextAlign {
    Origin,
    Center,
}

} // verus!
