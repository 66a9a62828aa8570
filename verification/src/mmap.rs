//! Settings for maps that live in mapped memory.

use vstd::prelude::*;
use crate::comparator::{Ascend, Comparator};
use crate::error::Error;
use crate::map::{sentinel_space, SkipMap};
use crate::model::EntrySpec;
use crate::options::Options;

verus! {

/// How memory is mapped for a map.
#[derive(Debug, Clone, Copy)]
pub struct MmapOptions {
    len: u32,
    offset: u64,
    populate: bool,
    huge: Option<u8>,
    stack: bool,
}

impl MmapOptions {
    /// The number of bytes to map.
    pub closed spec fn spec_len(&self) -> u32 {
        self.len
    }

    /// Where in the file the mapping starts.
    pub closed spec fn spec_offset(&self) -> u64 {
        self.offset
    }

    /// Whether the pages are to be filled in ahead of use.
    pub closed spec fn spec_populate(&self) -> bool {
        self.populate
    }

    /// The page size exponent for huge pages, if they are asked for.
    pub closed spec fn spec_huge(&self) -> Option<u8> {
        self.huge
    }

    /// Whether the mapping is to serve as a stack.
    pub closed spec fn spec_stack(&self) -> bool {
        self.stack
    }

    /// The settings with nothing asked for: no bytes, offset 0.
    pub closed spec fn spec_new() -> MmapOptions {
        MmapOptions { len: 0, offset: 0, populate: false, huge: None, stack: false }
    }

    /// The settings with nothing asked for: no bytes, offset 0.
    pub fn new() -> (o: MmapOptions)
        ensures
            o == MmapOptions::spec_new(),
            o.spec_len() == 0,
            o.spec_offset() == 0,
            !o.spec_populate(),
            o.spec_huge() is None,
            !o.spec_stack(),
    {
        MmapOptions { len: 0, offset: 0, populate: false, huge: None, stack: false }
    }

    /// The same settings with another number of bytes to map.
    pub fn len(self, len: u32) -> (o: MmapOptions)
        ensures
            o.spec_len() == len,
            o.spec_offset() == self.spec_offset(),
            o.spec_populate() == self.spec_populate(),
            o.spec_huge() == self.spec_huge(),
            o.spec_stack() == self.spec_stack(),
    {
        MmapOptions { len, ..self }
    }

    /// The same settings with another start in the file.
    pub fn offset(self, offset: u64) -> (o: MmapOptions)
        ensures
            o.spec_offset() == offset,
            o.spec_len() == self.spec_len(),
            o.spec_populate() == self.spec_populate(),
            o.spec_huge() == self.spec_huge(),
            o.spec_stack() == self.spec_stack(),
    {
        MmapOptions { offset, ..self }
    }

    /// The same settings with pages filled in ahead of use.
    pub fn populate(self) -> (o: MmapOptions)
        ensures
            o.spec_populate(),
            o.spec_len() == self.spec_len(),
            o.spec_offset() == self.spec_offset(),
            o.spec_huge() == self.spec_huge(),
            o.spec_stack() == self.spec_stack(),
    {
        MmapOptions { populate: true, ..self }
    }

    /// The same settings with huge pages of the given size exponent, or
    /// of the default size.
    pub fn huge(self, page_bits: Option<u8>) -> (o: MmapOptions)
        ensures
            o.spec_huge() == page_bits,
            o.spec_len() == self.spec_len(),
            o.spec_offset() == self.spec_offset(),
            o.spec_populate() == self.spec_populate(),
            o.spec_stack() == self.spec_stack(),
    {
        MmapOptions { huge: page_bits, ..self }
    }

    /// The same settings with the mapping to serve as a stack.
    pub fn stack(self) -> (o: MmapOptions)
        ensures
            o.spec_stack(),
            o.spec_len() == self.spec_len(),
            o.spec_offset() == self.spec_offset(),
            o.spec_populate() == self.spec_populate(),
            o.spec_huge() == self.spec_huge(),
    {
        MmapOptions { stack: true, ..self }
    }

    /// The number of bytes to map.
    pub fn get_len(&self) -> (n: u32)
        ensures
            n == self.spec_len(),
    {
        self.len
    }

    /// Where in the file the mapping starts.
    pub fn get_offset(&self) -> (n: u64)
        ensures
            n == self.spec_offset(),
    {
        self.offset
    }

    /// Whether the pages are to be filled in ahead of use.
    pub fn get_populate(&self) -> (b: bool)
        ensures
            b == self.spec_populate(),
    {
        self.populate
    }

    /// The page size exponent for huge pages, if they are asked for.
    pub fn get_huge(&self) -> (h: Option<u8>)
        ensures
            h == self.spec_huge(),
    {
        self.huge
    }

    /// Whether the mapping is to serve as a stack.
    pub fn get_stack(&self) -> (b: bool)
        ensures
            b == self.spec_stack(),
    {
        self.stack
    }
}

impl Default for MmapOptions {
    fn default() -> (o: MmapOptions)
        ensures
            o == MmapOptions::spec_new(),
    {
        MmapOptions::new()
    }
}

/// How the file behind a map is opened.
#[derive(Debug, Clone, Copy, PartialEq, Eq)]
pub struct OpenOptions {
    /// Create the file with this many bytes if it does not exist.
    pub create: Option<u32>,
    /// Create the file with this many bytes; fail if it exists.
    pub create_new: Option<u32>,
    /// Open for reading.
    pub read: bool,
    /// Open for writing.
    pub write: bool,
    /// Take a shared lock on the file.
    pub lock_shared: bool,
    /// Take an exclusive lock on the file.
    pub lock_exclusive: bool,
    /// Cut the file down to the bytes taken when the map is given up.
    pub shrink_on_drop: bool,
    /// Empty the file on opening.
    pub truncate: bool,
}

/// What to do with the file behind a map.
#[derive(Debug, Clone, Copy, PartialEq, Eq)]
pub enum OpenAction {
    /// The options allow nothing to be done with the file.
    Refuse,
    /// Start an empty map of this many bytes and write it to the file.
    Create(u32),
    /// Load the map from the file, to be changed.
    Load,
    /// Load the map from the file, read-only.
    LoadReadOnly,
}

impl OpenOptions {
    /// Nothing asked for: neither reading nor writing nor creating.
    pub fn new() -> (o: OpenOptions)
        ensures
            o == (OpenOptions {
                create: None,
                create_new: None,
                read: false,
                write: false,
                lock_shared: false,
                lock_exclusive: false,
                shrink_on_drop: false,
                truncate: false,
            }),
    {
        OpenOptions {
            create: None,
            create_new: None,
            read: false,
            write: false,
            lock_shared: false,
            lock_exclusive: false,
            shrink_on_drop: false,
            truncate: false,
        }
    }

    /// The same options, with the file created at `size` bytes if it does
    /// not exist.
    pub fn create(self, size: Option<u32>) -> (o: OpenOptions)
        ensures
            o == (OpenOptions { create: size, ..self }),
    {
        OpenOptions { create: size, ..self }
    }

    /// The same options, with the file created at `size` bytes, which
    /// fails if it exists.
    pub fn create_new(self, size: Option<u32>) -> (o: OpenOptions)
        ensures
            o == (OpenOptions { create_new: size, ..self }),
    {
        OpenOptions { create_new: size, ..self }
    }

    /// The same options, open for reading or not.
    pub fn read(self, read: bool) -> (o: OpenOptions)
        ensures
            o == (OpenOptions { read: read, ..self }),
    {
        OpenOptions { read, ..self }
    }

    /// The same options, open for writing or not.
    pub fn write(self, write: bool) -> (o: OpenOptions)
        ensures
            o == (OpenOptions { write: write, ..self }),
    {
        OpenOptions { write, ..self }
    }

    /// The same options, with or without a shared lock.
    pub fn lock_shared(self, lock: bool) -> (o: OpenOptions)
        ensures
            o == (OpenOptions { lock_shared: lock, ..self }),
    {
        OpenOptions { lock_shared: lock, ..self }
    }

    /// The same options, with or without an exclusive lock.
    pub fn lock_exclusive(self, lock: bool) -> (o: OpenOptions)
        ensures
            o == (OpenOptions { lock_exclusive: lock, ..self }),
    {
        OpenOptions { lock_exclusive: lock, ..self }
    }

    /// The same options, with the file cut down at the end or not.
    pub fn shrink_on_drop(self, shrink: bool) -> (o: OpenOptions)
        ensures
            o == (OpenOptions { shrink_on_drop: shrink, ..self }),
    {
        OpenOptions { shrink_on_drop: shrink, ..self }
    }

    /// The same options, with the file emptied on opening or not.
    pub fn truncate(self, truncate: bool) -> (o: OpenOptions)
        ensures
            o == (OpenOptions { truncate: truncate, ..self }),
    {
        OpenOptions { truncate, ..self }
    }

    /// What these options ask for, given whether the file exists.
    pub open spec fn spec_action(self, exists: bool) -> OpenAction {
        if !self.write {
            if self.read && exists {
                OpenAction::LoadReadOnly
            } else {
                OpenAction::Refuse
            }
        } else if self.create_new is Some {
            if exists {
                OpenAction::Refuse
            } else {
                OpenAction::Create(self.create_new->0)
            }
        } else if self.create is Some {
            if exists && !self.truncate {
                OpenAction::Load
            } else {
                OpenAction::Create(self.create->0)
            }
        } else if exists && !self.truncate {
            OpenAction::Load
        } else {
            OpenAction::Refuse
        }
    }

    /// What to do with the file, given whether it exists. Without write
    /// access an existing file is loaded read-only. With it, `create_new`
    /// starts a new map unless the file exists, `create` starts one if the
    /// file is missing or to be truncated, and an existing file is loaded
    /// otherwise.
    pub fn action(&self, exists: bool) -> (a: OpenAction)
        ensures
            a == self.spec_action(exists),
    {
        if !self.write {
            if self.read && exists {
                OpenAction::LoadReadOnly
            } else {
                OpenAction::Refuse
            }
        } else {
            match self.create_new {
                Some(size) => if exists {
                    OpenAction::Refuse
                } else {
                    OpenAction::Create(size)
                },
                None => match self.create {
                    Some(size) => if exists && !self.truncate {
                        OpenAction::Load
                    } else {
                        OpenAction::Create(size)
                    },
                    None => if exists && !self.truncate {
                        OpenAction::Load
                    } else {
                        OpenAction::Refuse
                    },
                },
            }
        }
    }
}

impl Default for OpenOptions {
    fn default() -> (o: OpenOptions)
        ensures
            o == (OpenOptions {
                create: None,
                create_new: None,
                read: false,
                write: false,
                lock_shared: false,
                lock_exclusive: false,
                shrink_on_drop: false,
                truncate: false,
            }),
    {
        OpenOptions::new()
    }
}

impl SkipMap<Ascend> {
    /// An empty map with ascending keys in anonymous memory of the length
    /// that `opts` asks for. Fails if that does not suffice for the two
    /// sentinel nodes.
    pub fn map_anon(opts: MmapOptions) -> (r: Result<Self, Error>)
        ensures
            r is Ok <==> sentinel_space(Options::spec_new().spec_max_height() as int) <= (
            if opts.spec_len() == 0 {
                1
            } else {
                opts.spec_len() as int
            }),
            r matches Ok(m) ==> m.wf() && m@ == Seq::<EntrySpec>::empty() && !m.spec_read_only()
                && m.spec_capacity() == (if opts.spec_len() == 0 {
                1
            } else {
                opts.spec_len() as nat
            }),
            r matches Err(e) ==> e is Arena,
    {
        SkipMap::map_anon_with_comparator(opts, Ascend)
    }
}

impl<C: Comparator> SkipMap<C> {
    /// An empty map with the given comparator in anonymous memory of the
    /// length that `opts` asks for. Fails if that does not suffice for the
    /// two sentinel nodes.
    pub fn map_anon_with_comparator(opts: MmapOptions, comparator: C) -> (r: Result<Self, Error>)
        ensures
            r is Ok <==> sentinel_space(Options::spec_new().spec_max_height() as int) <= (
            if opts.spec_len() == 0 {
                1
            } else {
                opts.spec_len() as int
            }),
            r matches Ok(m) ==> m.wf() && m@ == Seq::<EntrySpec>::empty() && !m.spec_read_only()
                && *m.spec_comparator() == comparator && m.spec_capacity() == (
            if opts.spec_len() == 0 {
                1
            } else {
                opts.spec_len() as nat
            }),
            r matches Err(e) ==> e is Arena,
    {
        let o = Options::new();
        proof {
            o.lemma_wf();
        }
        let o = o.with_capacity(opts.get_len());
        SkipMap::with_options_and_comparator(o, comparator)
    }
}

} // verus!
