use vstd::prelude::*;

verus! {

/// Runtime knobs shared read-only by every request.
#[derive(Debug, Clone, Copy)]
pub struct Config {
    /// Use the target's metadata (`true`) or the link's own (`false`).
    pub follow_links: bool,
    /// Render an HTML listing for directories; otherwise answer an empty 200.
    pub show_index: bool,
    /// Leave out of listings the entries whose name starts with `.`.
    pub hide_entry: bool,
    /// `max-age` of `Cache-Control`; zero disables caching and 304 answers.
    pub cache_secs: u32,
    /// Target number of bytes in one body chunk.
    pub chunk_size: usize,
}

/// The chunk size of a fresh configuration.
pub const DEFAULT_CHUNK_SIZE: usize = 16384;

impl Config {
    /// A configuration is usable when its chunk size is positive.
    pub open spec fn wf(&self) -> bool {
        self.chunk_size > 0
    }

    pub fn new() -> (r: Self)
        ensures
            r.wf(),
            !r.follow_links,
            !r.show_index,
            !r.hide_entry,
            r.cache_secs == 0,
            r.chunk_size == DEFAULT_CHUNK_SIZE,
    {
        Config {
            follow_links: false,
            show_index: false,
            hide_entry: false,
            cache_secs: 0,
            chunk_size: DEFAULT_CHUNK_SIZE,
        }
    }

    pub fn follow_links(self, follow_links: bool) -> (r: Self)
        ensures
            r == (Config { follow_links, ..self }),
    {
        let mut c = self;
        c.follow_links = follow_links;
        c
    }

    pub fn show_index(self, show_index: bool) -> (r: Self)
        ensures
            r == (Config { show_index, ..self }),
    {
        let mut c = self;
        c.show_index = show_index;
        c
    }

    pub fn hide_entry(self, hide_entry: bool) -> (r: Self)
        ensures
            r == (Config { hide_entry, ..self }),
    {
        let mut c = self;
        c.hide_entry = hide_entry;
        c
    }

    pub fn cache_secs(self, cache_secs: u32) -> (r: Self)
        ensures
            r == (Config { cache_secs, ..self }),
    {
        let mut c = self;
        c.cache_secs = cache_secs;
        c
    }

    pub fn chunk_size(self, chunk_size: usize) -> (r: Self)
        requires
            chunk_size > 0,
        ensures
            r == (Config { chunk_size, ..self }),
            r.wf(),
    {
        let mut c = self;
        c.chunk_size = chunk_size;
        c
    }

    pub fn get_follow_links(&self) -> (r: bool)
        ensures
            r == self.follow_links,
    {
        self.follow_links
    }

    pub fn get_show_index(&self) -> (r: bool)
        ensures
            r == self.show_index,
    {
        self.show_index
    }

    pub fn get_hide_entry(&self) -> (r: bool)
        ensures
            r == self.hide_entry,
    {
        self.hide_entry
    }

    pub fn get_cache_secs(&self) -> (r: &u32)
        ensures
            *r == self.cache_secs,
    {
        &self.cache_secs
    }

    pub fn get_chunk_size(&self) -> (r: &usize)
        ensures
            *r == self.chunk_size,
    {
        &self.chunk_size
    }

    pub fn set_follow_links(&mut self, follow_links: bool)
        ensures
            *final(self) == (Config { follow_links, ..*old(self) }),
    {
        self.follow_links = follow_links;
    }

    pub fn set_show_index(&mut self, show_index: bool)
        ensures
            *final(self) == (Config { show_index, ..*old(self) }),
    {
        self.show_index = show_index;
    }

    pub fn set_hide_entry(&mut self, hide_entry: bool)
        ensures
            *final(self) == (Config { hide_entry, ..*old(self) }),
    {
        self.hide_entry = hide_entry;
    }

    pub fn set_cache_secs(&mut self, cache_secs: u32)
        ensures
            *final(self) == (Config { cache_secs, ..*old(self) }),
    {
        self.cache_secs = cache_secs;
    }

    pub fn set_chunk_size(&mut self, chunk_size: usize)
        requires
            chunk_size > 0,
        ensures
            *final(self) == (Config { chunk_size, ..*old(self) }),
            final(self).wf(),
    {
        self.chunk_size = chunk_size;
    }
}

impl Default for Config {
    fn default() -> (r: Self)
        ensures
            r == Config::new_spec(),
    {
        Config::new()
    }
}

impl Config {
    /// The configuration that `new` returns.
    pub open spec fn new_spec() -> Config {
        Config {
            follow_links: false,
            show_index: false,
            hide_entry: false,
            cache_secs: 0,
            chunk_size: DEFAULT_CHUNK_SIZE,
        }
    }
}

} // verus!
