//! The shortcut record, in a form that borrows its text and in one that owns it.
use vstd::prelude::*;

use crate::app_id_generator::{app_id_of, calculate_app_id};

verus! {

/// What a shortcut record holds, as mathematical values: the model that the reader and the
/// writer are specified against. Both [`Shortcut`] and [`ShortcutOwned`] view as this.
pub struct ShortcutView {
    pub order: usize,
    pub app_id: u32,
    pub app_name: Seq<char>,
    pub exe: Seq<char>,
    pub start_dir: Seq<char>,
    pub icon: Seq<char>,
    pub shortcut_path: Seq<char>,
    pub launch_options: Seq<char>,
    pub is_hidden: bool,
    pub allow_desktop_config: bool,
    pub allow_overlay: bool,
    pub open_vr: u32,
    pub dev_kit: u32,
    pub dev_kit_game_id: Seq<char>,
    pub dev_kit_overrite_app_id: u32,
    pub last_play_time: u32,
    pub tags: Seq<Seq<char>>,
}

/// Data of one shortcut, borrowing its text from a buffer that outlives it.
#[derive(Debug, Clone, PartialEq, Eq, Hash)]
pub struct Shortcut<'a> {
    /// Order/index of the shortcut.
    pub order: usize,
    /// The id of this shortcut; [`calculate_app_id`](crate::calculate_app_id) derives one.
    pub app_id: u32,
    /// The name shown for this shortcut.
    pub app_name: &'a str,
    /// The target location.
    pub exe: &'a str,
    /// The directory to launch the shortcut in (its working directory).
    pub start_dir: &'a str,
    /// Path to the icon of the shortcut.
    pub icon: &'a str,
    /// The path to the shortcut.
    pub shortcut_path: &'a str,
    /// Options passed to the target.
    pub launch_options: &'a str,
    /// Is this shortcut hidden?
    pub is_hidden: bool,
    /// Is desktop configuration allowed?
    pub allow_desktop_config: bool,
    /// Is the overlay allowed?
    pub allow_overlay: bool,
    /// Open VR id.
    pub open_vr: u32,
    /// Devkit id.
    pub dev_kit: u32,
    /// Devkit game id.
    pub dev_kit_game_id: &'a str,
    /// Devkit override app id.
    pub dev_kit_overrite_app_id: u32,
    /// The last time played, in seconds.
    pub last_play_time: u32,
    /// The tags of this shortcut, in order.
    pub tags: Vec<&'a str>,
}

/// Data of one shortcut that owns all of its text.
#[derive(Debug, Clone, PartialEq, Eq)]
pub struct ShortcutOwned {
    /// Order/index of the shortcut.
    pub order: usize,
    /// The id of this shortcut.
    pub app_id: u32,
    /// The name shown for this shortcut.
    pub app_name: String,
    /// The target location.
    pub exe: String,
    /// The directory to launch the shortcut in (its working directory).
    pub start_dir: String,
    /// Path to the icon of the shortcut.
    pub icon: String,
    /// The path to the shortcut.
    pub shortcut_path: String,
    /// Options passed to the target.
    pub launch_options: String,
    /// Is this shortcut hidden?
    pub is_hidden: bool,
    /// Is desktop configuration allowed?
    pub allow_desktop_config: bool,
    /// Is the overlay allowed?
    pub allow_overlay: bool,
    /// Open VR id.
    pub open_vr: u32,
    /// Devkit id.
    pub dev_kit: u32,
    /// Devkit game id.
    pub dev_kit_game_id: String,
    /// Devkit override app id.
    pub dev_kit_overrite_app_id: u32,
    /// The last time played, in seconds.
    pub last_play_time: u32,
    /// The tags of this shortcut, in order.
    pub tags: Vec<String>,
}

/// The texts of a sequence of string slices.
pub open spec fn text_views<'a>(v: Seq<&'a str>) -> Seq<Seq<char>> {
    v.map_values(|t: &'a str| t@)
}

/// The models of a sequence of records.
pub open spec fn shortcut_views<'a>(v: Seq<Shortcut<'a>>) -> Seq<ShortcutView> {
    v.map_values(|s: Shortcut<'a>| s@)
}

impl<'a> View for Shortcut<'a> {
    type V = ShortcutView;

    open spec fn view(&self) -> ShortcutView {
        ShortcutView {
            order: self.order,
            app_id: self.app_id,
            app_name: self.app_name@,
            exe: self.exe@,
            start_dir: self.start_dir@,
            icon: self.icon@,
            shortcut_path: self.shortcut_path@,
            launch_options: self.launch_options@,
            is_hidden: self.is_hidden,
            allow_desktop_config: self.allow_desktop_config,
            allow_overlay: self.allow_overlay,
            open_vr: self.open_vr,
            dev_kit: self.dev_kit,
            dev_kit_game_id: self.dev_kit_game_id@,
            dev_kit_overrite_app_id: self.dev_kit_overrite_app_id,
            last_play_time: self.last_play_time,
            tags: text_views(self.tags@),
        }
    }
}

impl View for ShortcutOwned {
    type V = ShortcutView;

    open spec fn view(&self) -> ShortcutView {
        ShortcutView {
            order: self.order,
            app_id: self.app_id,
            app_name: self.app_name@,
            exe: self.exe@,
            start_dir: self.start_dir@,
            icon: self.icon@,
            shortcut_path: self.shortcut_path@,
            launch_options: self.launch_options@,
            is_hidden: self.is_hidden,
            allow_desktop_config: self.allow_desktop_config,
            allow_overlay: self.allow_overlay,
            open_vr: self.open_vr,
            dev_kit: self.dev_kit,
            dev_kit_game_id: self.dev_kit_game_id@,
            dev_kit_overrite_app_id: self.dev_kit_overrite_app_id,
            last_play_time: self.last_play_time,
            tags: self.tags@.map_values(|t: String| t@),
        }
    }
}

impl ShortcutOwned {
    /// A record that borrows its text from this one.
    pub fn borrow<'a>(&'a self) -> (r: Shortcut<'a>)
        ensures
            r@ == self@,
    {
        let mut tags: Vec<&'a str> = Vec::new();
        let mut k: usize = 0;
        while k < self.tags.len()
            invariant
                k <= self.tags@.len(),
                tags@.len() == k,
                forall|j: int| 0 <= j < k ==> (#[trigger] tags@[j])@ == self.tags@[j]@,
            decreases self.tags@.len() - k,
        {
            tags.push(self.tags[k].as_str());
            k = k + 1;
        }
        let r = Shortcut {
            order: self.order,
            app_id: self.app_id,
            app_name: self.app_name.as_str(),
            exe: self.exe.as_str(),
            start_dir: self.start_dir.as_str(),
            icon: self.icon.as_str(),
            shortcut_path: self.shortcut_path.as_str(),
            launch_options: self.launch_options.as_str(),
            is_hidden: self.is_hidden,
            allow_desktop_config: self.allow_desktop_config,
            allow_overlay: self.allow_overlay,
            open_vr: self.open_vr,
            dev_kit: self.dev_kit,
            dev_kit_game_id: self.dev_kit_game_id.as_str(),
            dev_kit_overrite_app_id: self.dev_kit_overrite_app_id,
            last_play_time: self.last_play_time,
            tags,
        };
        assert(text_views(r.tags@) =~= self.tags@.map_values(|t: String| t@));
        r
    }
}

impl<'a> Shortcut<'a> {
    /// Creates a shortcut with defaults: an id derived from `exe` and `app_name`, not hidden,
    /// desktop configuration and overlay allowed, zeroed VR and devkit fields, an empty devkit
    /// game id, no last play time, and the tags `Installed` and `Ready To Play`.
    pub fn new(
        order: usize,
        app_name: &'a str,
        exe: &'a str,
        start_dir: &'a str,
        icon: &'a str,
        shortcut_path: &'a str,
        launch_options: &'a str,
    ) -> (r: Self)
        ensures
            r@ == (ShortcutView {
                order,
                app_id: app_id_of(exe@, app_name@),
                app_name: app_name@,
                exe: exe@,
                start_dir: start_dir@,
                icon: icon@,
                shortcut_path: shortcut_path@,
                launch_options: launch_options@,
                is_hidden: false,
                allow_desktop_config: true,
                allow_overlay: true,
                open_vr: 0,
                dev_kit: 0,
                dev_kit_game_id: Seq::empty(),
                dev_kit_overrite_app_id: 0,
                last_play_time: 0,
                tags: seq!["Installed"@, "Ready To Play"@],
            }),
    {
        let app_id = calculate_app_id(exe, app_name);
        let dev_kit_game_id = "";
        proof {
            reveal_strlit("");
        }
        let mut tags: Vec<&'a str> = Vec::new();
        tags.push("Installed");
        tags.push("Ready To Play");
        let r = Shortcut {
            order,
            app_id,
            app_name,
            exe,
            start_dir,
            icon,
            shortcut_path,
            launch_options,
            is_hidden: false,
            allow_desktop_config: true,
            allow_overlay: true,
            open_vr: 0,
            dev_kit: 0,
            dev_kit_game_id,
            dev_kit_overrite_app_id: 0,
            last_play_time: 0,
            tags,
        };
        assert(text_views(r.tags@) =~= seq!["Installed"@, "Ready To Play"@]);
        assert(dev_kit_game_id@ =~= Seq::<char>::empty());
        r
    }

    /// A record that owns a copy of all of this one's text.
    pub fn to_owned(&self) -> (r: ShortcutOwned)
        ensures
            r@ == self@,
    {
        let mut tags: Vec<String> = Vec::new();
        let mut k: usize = 0;
        while k < self.tags.len()
            invariant
                k <= self.tags@.len(),
                tags@.len() == k,
                forall|j: int| 0 <= j < k ==> (#[trigger] tags@[j])@ == self.tags@[j]@,
            decreases self.tags@.len() - k,
        {
            tags.push(self.tags[k].to_owned());
            k = k + 1;
        }
        let r = ShortcutOwned {
            order: self.order,
            app_id: self.app_id,
            app_name: self.app_name.to_owned(),
            exe: self.exe.to_owned(),
            start_dir: self.start_dir.to_owned(),
            icon: self.icon.to_owned(),
            shortcut_path: self.shortcut_path.to_owned(),
            launch_options: self.launch_options.to_owned(),
            is_hidden: self.is_hidden,
            allow_desktop_config: self.allow_desktop_config,
            allow_overlay: self.allow_overlay,
            open_vr: self.open_vr,
            dev_kit: self.dev_kit,
            dev_kit_game_id: self.dev_kit_game_id.to_owned(),
            dev_kit_overrite_app_id: self.dev_kit_overrite_app_id,
            last_play_time: self.last_play_time,
            tags,
        };
        assert(r.tags@.map_values(|t: String| t@) =~= text_views(self.tags@));
        r
    }
}

} // verus!
