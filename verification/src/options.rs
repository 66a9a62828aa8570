//! What a map is built with: capacity and limits.

use vstd::prelude::*;
use crate::codec::{MAX_HEIGHT, MAX_KEY_SIZE, MAX_VALUE_SIZE};

verus! {

/// The capacity that a map gets when none is asked for.
pub const DEFAULT_CAPACITY: u32 = 1024;

/// The settings of a map.
#[derive(Debug, Clone, Copy)]
pub struct Options {
    capacity: u32,
    max_height: u8,
    max_key_size: u32,
    max_value_size: u32,
    seed: Option<u64>,
}

impl Options {
    /// The capacity of the arena in bytes.
    pub closed spec fn spec_capacity(&self) -> u32 {
        self.capacity
    }

    /// The highest tower a node may get.
    pub closed spec fn spec_max_height(&self) -> u8 {
        self.max_height
    }

    /// The longest key that the map accepts.
    pub closed spec fn spec_max_key_size(&self) -> u32 {
        self.max_key_size
    }

    /// The longest value that the map accepts.
    pub closed spec fn spec_max_value_size(&self) -> u32 {
        self.max_value_size
    }

    /// The seed of the height sampler, if one was fixed.
    pub closed spec fn spec_seed(&self) -> Option<u64> {
        self.seed
    }

    /// The limits are within what a node can encode.
    pub closed spec fn wf(&self) -> bool {
        &&& 1 <= self.max_height <= MAX_HEIGHT
        &&& self.max_key_size <= MAX_KEY_SIZE
        &&& self.max_value_size <= MAX_VALUE_SIZE
    }

    /// What `wf` says, over the public names.
    pub proof fn lemma_wf(&self)
        requires
            self.wf(),
        ensures
            1 <= self.spec_max_height() <= MAX_HEIGHT,
            self.spec_max_key_size() <= MAX_KEY_SIZE,
            self.spec_max_value_size() <= MAX_VALUE_SIZE,
    {
    }

    /// The default settings, as a mathematical value.
    pub closed spec fn spec_new() -> Options {
        Options {
            capacity: DEFAULT_CAPACITY,
            max_height: MAX_HEIGHT as u8,
            max_key_size: MAX_KEY_SIZE,
            max_value_size: MAX_VALUE_SIZE,
            seed: None,
        }
    }

    /// The default settings: 1024 bytes, towers up to 20 levels, keys and
    /// values as long as a node can encode, no fixed seed.
    pub fn new() -> (o: Options)
        ensures
            o == Options::spec_new(),
            o.wf(),
            o.spec_capacity() == DEFAULT_CAPACITY,
            o.spec_max_height() == MAX_HEIGHT,
            o.spec_max_key_size() == MAX_KEY_SIZE,
            o.spec_max_value_size() == MAX_VALUE_SIZE,
            o.spec_seed() is None,
    {
        Options {
            capacity: DEFAULT_CAPACITY,
            max_height: MAX_HEIGHT as u8,
            max_key_size: MAX_KEY_SIZE,
            max_value_size: MAX_VALUE_SIZE,
            seed: None,
        }
    }

    /// The same settings with another capacity.
    pub fn with_capacity(self, capacity: u32) -> (o: Options)
        ensures
            self.wf() ==> o.wf(),
            o.spec_capacity() == capacity,
            o.spec_max_height() == self.spec_max_height(),
            o.spec_max_key_size() == self.spec_max_key_size(),
            o.spec_max_value_size() == self.spec_max_value_size(),
            o.spec_seed() == self.spec_seed(),
    {
        Options { capacity, ..self }
    }

    /// The same settings with another highest tower; a height outside
    /// `1..=20` is brought to the nearest end of that range.
    pub fn with_max_height(self, max_height: u8) -> (o: Options)
        ensures
            self.wf() ==> o.wf(),
            o.spec_max_height() == if max_height < 1 {
                1u8
            } else if max_height > MAX_HEIGHT {
                MAX_HEIGHT as u8
            } else {
                max_height
            },
            o.spec_capacity() == self.spec_capacity(),
            o.spec_max_key_size() == self.spec_max_key_size(),
            o.spec_max_value_size() == self.spec_max_value_size(),
            o.spec_seed() == self.spec_seed(),
    {
        let h: u8 = if max_height < 1 {
            1
        } else if max_height as usize > MAX_HEIGHT {
            MAX_HEIGHT as u8
        } else {
            max_height
        };
        Options { max_height: h, ..self }
    }

    /// The same settings with another longest key; a size that a node
    /// cannot encode is brought down to the largest that it can.
    pub fn with_max_key_size(self, size: u32) -> (o: Options)
        ensures
            self.wf() ==> o.wf(),
            o.spec_max_key_size() == if size > MAX_KEY_SIZE {
                MAX_KEY_SIZE
            } else {
                size
            },
            o.spec_capacity() == self.spec_capacity(),
            o.spec_max_height() == self.spec_max_height(),
            o.spec_max_value_size() == self.spec_max_value_size(),
            o.spec_seed() == self.spec_seed(),
    {
        let s: u32 = if size > MAX_KEY_SIZE {
            MAX_KEY_SIZE
        } else {
            size
        };
        Options { max_key_size: s, ..self }
    }

    /// The same settings with another longest value; a size that a node
    /// cannot encode is brought down to the largest that it can.
    pub fn with_max_value_size(self, size: u32) -> (o: Options)
        ensures
            self.wf() ==> o.wf(),
            o.spec_max_value_size() == if size > MAX_VALUE_SIZE {
                MAX_VALUE_SIZE
            } else {
                size
            },
            o.spec_capacity() == self.spec_capacity(),
            o.spec_max_height() == self.spec_max_height(),
            o.spec_max_key_size() == self.spec_max_key_size(),
            o.spec_seed() == self.spec_seed(),
    {
        let s: u32 = if size > MAX_VALUE_SIZE {
            MAX_VALUE_SIZE
        } else {
            size
        };
        Options { max_value_size: s, ..self }
    }

    /// The same settings with a fixed seed for the height sampler.
    pub fn with_seed(self, seed: u64) -> (o: Options)
        ensures
            self.wf() ==> o.wf(),
            o.spec_seed() == Some(seed),
            o.spec_capacity() == self.spec_capacity(),
            o.spec_max_height() == self.spec_max_height(),
            o.spec_max_key_size() == self.spec_max_key_size(),
            o.spec_max_value_size() == self.spec_max_value_size(),
    {
        Options { seed: Some(seed), ..self }
    }

    /// The capacity of the arena in bytes.
    pub fn capacity(&self) -> (n: u32)
        ensures
            n == self.spec_capacity(),
    {
        self.capacity
    }

    /// The highest tower a node may get.
    pub fn max_height(&self) -> (h: u8)
        ensures
            h == self.spec_max_height(),
    {
        self.max_height
    }

    /// The longest key that the map accepts.
    pub fn max_key_size(&self) -> (n: u32)
        ensures
            n == self.spec_max_key_size(),
    {
        self.max_key_size
    }

    /// The longest value that the map accepts.
    pub fn max_value_size(&self) -> (n: u32)
        ensures
            n == self.spec_max_value_size(),
    {
        self.max_value_size
    }

    /// The seed of the height sampler, if one was fixed.
    pub fn seed(&self) -> (s: Option<u64>)
        ensures
            s == self.spec_seed(),
    {
        self.seed
    }
}

} // verus!
