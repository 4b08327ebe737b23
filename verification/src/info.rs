use vstd::prelude::*;

verus! {

/// The application's name, identifier and default window size.
pub struct Info {
    title: &'static str,
    application_id: &'static str,
    default_width: i32,
    default_height: i32,
}

pub const DEFAULT_WIDTH: i32 = 1280;

pub const DEFAULT_HEIGHT: i32 = 720;

pub open spec fn default_title() -> Seq<char> {
    "LogicRs"@
}

pub open spec fn default_application_id() -> Seq<char> {
    "com.spydr06.LogicRs"@
}

impl Info {
    pub closed spec fn title_view(&self) -> Seq<char> {
        self.title@
    }

    pub closed spec fn app_id_view(&self) -> Seq<char> {
        self.application_id@
    }

    pub closed spec fn size_view(&self) -> (i32, i32) {
        (self.default_width, self.default_height)
    }

    pub fn new() -> (info: Self)
        ensures
            info.title_view() == default_title(),
            info.app_id_view() == default_application_id(),
            info.size_view() == (DEFAULT_WIDTH, DEFAULT_HEIGHT),
    {
        Info {
            application_id: "com.spydr06.LogicRs",
            title: "LogicRs",
            default_width: DEFAULT_WIDTH,
            default_height: DEFAULT_HEIGHT,
        }
    }

    pub fn title(self, title: &'static str) -> (info: Self)
        ensures
            info.title_view() == title@,
            info.app_id_view() == self.app_id_view(),
            info.size_view() == self.size_view(),
    {
        let mut new = self;
        new.title = title;
        new
    }

    pub fn get_title(&self) -> (title: &'static str)
        ensures
            title@ == self.title_view(),
    {
        self.title
    }

    pub fn default_size(self, width: i32, height: i32) -> (info: Self)
        ensures
            info.title_view() == self.title_view(),
            info.app_id_view() == self.app_id_view(),
            info.size_view() == (width, height),
    {
        let mut new = self;
        new.default_width = width;
        new.default_height = height;
        new
    }

    pub fn get_app_id(&self) -> (id: &'static str)
        ensures
            id@ == self.app_id_view(),
    {
        self.application_id
    }

    pub fn get_default_size(&self) -> (size: (i32, i32))
        ensures
            size == self.size_view(),
    {
        (self.default_width, self.default_height)
    }
}

} // verus!
