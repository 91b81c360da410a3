//! Typed extraction: reading a node as a value of a given type.
//!
//! Every reading either gives a value or gives nothing; none fails.

use vstd::prelude::*;
use crate::config::Config;
use crate::node::Node;

verus! {

/// Reading a node as a `T`.
///
/// `present` says on which nodes the reading gives a value, and `reads_as`
/// which value it is.
pub trait ConfigGet<'a, T> {
    /// The node can be read as a `T`.
    spec fn present(&self) -> bool;

    /// `value` is what the node reads as.
    spec fn reads_as(&self, value: T) -> bool;

    /// Reads the node as a `T`, if it can be read so.
    fn get(&'a self) -> (r: Option<T>)
        ensures
            r is Some <==> self.present(),
            r matches Some(v) ==> self.reads_as(v),
    ;

    /// The value read, or `default` where there is none.
    fn unwrap_or(&'a self, default: T) -> (r: T)
        ensures
            self.present() ==> self.reads_as(r),
            !self.present() ==> r == default,
    {
        match self.get() {
            Some(v) => v,
            None => default,
        }
    }

    /// The value read, on a node that has one.
    fn unwrap(&'a self) -> (r: T)
        requires
            self.present(),
        ensures
            self.reads_as(r),
    {
        self.get().unwrap()
    }

    /// The value read, or what `f` gives where there is none.
    fn unwrap_or_else<F: FnOnce() -> T>(&'a self, f: F) -> (r: T)
        requires
            !self.present() ==> f.requires(()),
        ensures
            self.present() ==> self.reads_as(r),
            !self.present() ==> f.ensures((), r),
    {
        match self.get() {
            Some(v) => v,
            None => f(),
        }
    }

    /// Whether the node can be read as a `T`.
    fn is_some(&'a self) -> (b: bool)
        ensures
            b == self.present(),
    {
        self.get().is_some()
    }

    /// Whether the node cannot be read as a `T`.
    fn is_none(&'a self) -> (b: bool)
        ensures
            b == !self.present(),
    {
        self.get().is_none()
    }
}

/// An integer reads as an `i8` where it fits.
impl<'a> ConfigGet<'a, i8> for Config {
    open spec fn present(&self) -> bool {
        self@ matches Node::Int(i) && i8::MIN <= i <= i8::MAX
    }

    open spec fn reads_as(&self, value: i8) -> bool {
        self@ == Node::Int(value as int)
    }

    fn get(&'a self) -> (r: Option<i8>) {
        match *self {
            Config::Int(i) => if i >= -128 && i <= 127 {
                Some(i as i8)
            } else {
                None
            },
            _ => None,
        }
    }
}

/// An integer reads as an `i16` where it fits.
impl<'a> ConfigGet<'a, i16> for Config {
    open spec fn present(&self) -> bool {
        self@ matches Node::Int(i) && i16::MIN <= i <= i16::MAX
    }

    open spec fn reads_as(&self, value: i16) -> bool {
        self@ == Node::Int(value as int)
    }

    fn get(&'a self) -> (r: Option<i16>) {
        match *self {
            Config::Int(i) => if i >= -32768 && i <= 32767 {
                Some(i as i16)
            } else {
                None
            },
            _ => None,
        }
    }
}

/// An integer reads as an `i32` where it fits.
impl<'a> ConfigGet<'a, i32> for Config {
    open spec fn present(&self) -> bool {
        self@ matches Node::Int(i) && i32::MIN <= i <= i32::MAX
    }

    open spec fn reads_as(&self, value: i32) -> bool {
        self@ == Node::Int(value as int)
    }

    fn get(&'a self) -> (r: Option<i32>) {
        match *self {
            Config::Int(i) => if i >= -2147483648 && i <= 2147483647 {
                Some(i as i32)
            } else {
                None
            },
            _ => None,
        }
    }
}

/// An integer reads as itself.
impl<'a> ConfigGet<'a, i64> for Config {
    open spec fn present(&self) -> bool {
        self@ is Int
    }

    open spec fn reads_as(&self, value: i64) -> bool {
        self@ == Node::Int(value as int)
    }

    fn get(&'a self) -> (r: Option<i64>) {
        match *self {
            Config::Int(i) => Some(i),
            _ => None,
        }
    }
}

/// An integer reads as an `isize` where it fits.
impl<'a> ConfigGet<'a, isize> for Config {
    open spec fn present(&self) -> bool {
        self@ matches Node::Int(i) && isize::MIN <= i <= isize::MAX
    }

    open spec fn reads_as(&self, value: isize) -> bool {
        self@ == Node::Int(value as int)
    }

    fn get(&'a self) -> (r: Option<isize>) {
        match *self {
            Config::Int(i) => if i >= isize::MIN as i64 && i <= isize::MAX as i64 {
                Some(i as isize)
            } else {
                None
            },
            _ => None,
        }
    }
}

/// An integer reads as a `u8` where it fits.
impl<'a> ConfigGet<'a, u8> for Config {
    open spec fn present(&self) -> bool {
        self@ matches Node::Int(i) && 0 <= i <= u8::MAX
    }

    open spec fn reads_as(&self, value: u8) -> bool {
        self@ == Node::Int(value as int)
    }

    fn get(&'a self) -> (r: Option<u8>) {
        match *self {
            Config::Int(i) => if i >= 0 && i <= 255 {
                Some(i as u8)
            } else {
                None
            },
            _ => None,
        }
    }
}

/// An integer reads as a `u16` where it fits.
impl<'a> ConfigGet<'a, u16> for Config {
    open spec fn present(&self) -> bool {
        self@ matches Node::Int(i) && 0 <= i <= u16::MAX
    }

    open spec fn reads_as(&self, value: u16) -> bool {
        self@ == Node::Int(value as int)
    }

    fn get(&'a self) -> (r: Option<u16>) {
        match *self {
            Config::Int(i) => if i >= 0 && i <= 65535 {
                Some(i as u16)
            } else {
                None
            },
            _ => None,
        }
    }
}

/// An integer reads as a `u32` where it fits.
impl<'a> ConfigGet<'a, u32> for Config {
    open spec fn present(&self) -> bool {
        self@ matches Node::Int(i) && 0 <= i <= u32::MAX
    }

    open spec fn reads_as(&self, value: u32) -> bool {
        self@ == Node::Int(value as int)
    }

    fn get(&'a self) -> (r: Option<u32>) {
        match *self {
            Config::Int(i) => if i >= 0 && i <= 4294967295 {
                Some(i as u32)
            } else {
                None
            },
            _ => None,
        }
    }
}

/// An integer reads as a `u64` where it fits.
impl<'a> ConfigGet<'a, u64> for Config {
    open spec fn present(&self) -> bool {
        self@ matches Node::Int(i) && 0 <= i
    }

    open spec fn reads_as(&self, value: u64) -> bool {
        self@ == Node::Int(value as int)
    }

    fn get(&'a self) -> (r: Option<u64>) {
        match *self {
            Config::Int(i) => if i >= 0 {
                Some(i as u64)
            } else {
                None
            },
            _ => None,
        }
    }
}

/// An integer reads as a `usize` where it fits.
impl<'a> ConfigGet<'a, usize> for Config {
    open spec fn present(&self) -> bool {
        self@ matches Node::Int(i) && 0 <= i <= usize::MAX
    }

    open spec fn reads_as(&self, value: usize) -> bool {
        self@ == Node::Int(value as int)
    }

    fn get(&'a self) -> (r: Option<usize>) {
        match *self {
            Config::Int(i) => if i >= 0 && i as u64 <= usize::MAX as u64 {
                Some(i as usize)
            } else {
                None
            },
            _ => None,
        }
    }
}

/// A boolean reads as itself.
impl<'a> ConfigGet<'a, bool> for Config {
    open spec fn present(&self) -> bool {
        self@ is Bool
    }

    open spec fn reads_as(&self, value: bool) -> bool {
        self@ == Node::Bool(value)
    }

    fn get(&'a self) -> (r: Option<bool>) {
        match *self {
            Config::Bool(b) => Some(b),
            _ => None,
        }
    }
}

/// A string reads as a copy of its text.
impl<'a> ConfigGet<'a, String> for Config {
    open spec fn present(&self) -> bool {
        self@ is String
    }

    open spec fn reads_as(&self, value: String) -> bool {
        self@ == Node::String(value@)
    }

    fn get(&'a self) -> (r: Option<String>) {
        match self {
            Config::String(s) => Some(s.clone()),
            _ => None,
        }
    }
}

/// A string reads as its text, borrowed.
impl<'a> ConfigGet<'a, &'a str> for Config {
    open spec fn present(&self) -> bool {
        self@ is String
    }

    open spec fn reads_as(&self, value: &'a str) -> bool {
        self@ == Node::String(value@)
    }

    fn get(&'a self) -> (r: Option<&'a str>) {
        match self {
            Config::String(s) => Some(s.as_str()),
            _ => None,
        }
    }
}

/// A sequence reads as a vector where every element reads as a `T`: all of
/// them or nothing.
impl<'a, T> ConfigGet<'a, Vec<T>> for Config where Config: ConfigGet<'a, T> {
    open spec fn present(&self) -> bool {
        match self {
            Config::Array(a) => forall|i: int|
                0 <= i < a@.len() ==> <Config as ConfigGet<'a, T>>::present(#[trigger] &a@[i]),
            _ => false,
        }
    }

    open spec fn reads_as(&self, value: Vec<T>) -> bool {
        match self {
            Config::Array(a) => value@.len() == a@.len() && forall|i: int|
                0 <= i < a@.len() ==> (#[trigger] a@[i]).reads_as(value@[i]),
            _ => false,
        }
    }

    fn get(&'a self) -> (r: Option<Vec<T>>) {
        match self {
            Config::Array(a) => {
                let mut v: Vec<T> = Vec::new();
                let mut k: usize = 0;
                while k < a.len()
                    invariant
                        *self == Config::Array(*a),
                        k <= a.len(),
                        v@.len() == k,
                        forall|i: int|
                            0 <= i < k ==> <Config as ConfigGet<'a, T>>::present(
                                #[trigger] &a@[i],
                            ),
                        forall|i: int| 0 <= i < k ==> (#[trigger] a@[i]).reads_as(v@[i]),
                    decreases a.len() - k,
                {
                    let item: Option<T> = a[k].get();
                    match item {
                        Some(val) => v.push(val),
                        None => {
                            assert(self->Array_0@[k as int] == a@[k as int]);
                            return None;
                        },
                    }
                    k += 1;
                }
                Some(v)
            },
            _ => None,
        }
    }
}

/// A sequence of exactly 2 elements reads as a tuple where each element
/// reads as the type at its position: all of them or nothing.
impl<'a, T, U> ConfigGet<'a, (T, U)> for Config where Config: ConfigGet<'a, T> + ConfigGet<'a, U> {
    open spec fn present(&self) -> bool {
        match self {
            Config::Array(a) => {
                &&& a@.len() == 2
                &&& <Config as ConfigGet<'a, T>>::present(&a@[0])
                &&& <Config as ConfigGet<'a, U>>::present(&a@[1])
            },
            _ => false,
        }
    }

    open spec fn reads_as(&self, value: (T, U)) -> bool {
        match self {
            Config::Array(a) => {
                &&& a@.len() == 2
                &&& a@[0].reads_as(value.0)
                &&& a@[1].reads_as(value.1)
            },
            _ => false,
        }
    }

    fn get(&'a self) -> (r: Option<(T, U)>) {
        match self {
            Config::Array(a) => if a.len() == 2 {
                let y: Option<T> = a[0].get();
                let z: Option<U> = a[1].get();
                match (y, z) {
                    (Some(y), Some(z)) => Some((y, z)),
                    _ => None,
                }
            } else {
                None
            },
            _ => None,
        }
    }
}

/// A sequence of exactly 3 elements reads as a tuple where each element
/// reads as the type at its position: all of them or nothing.
impl<'a, T, U, V> ConfigGet<'a, (T, U, V)> for Config where
    Config: ConfigGet<'a, T> + ConfigGet<'a, U> + ConfigGet<'a, V>,
{
    open spec fn present(&self) -> bool {
        match self {
            Config::Array(a) => {
                &&& a@.len() == 3
                &&& <Config as ConfigGet<'a, T>>::present(&a@[0])
                &&& <Config as ConfigGet<'a, U>>::present(&a@[1])
                &&& <Config as ConfigGet<'a, V>>::present(&a@[2])
            },
            _ => false,
        }
    }

    open spec fn reads_as(&self, value: (T, U, V)) -> bool {
        match self {
            Config::Array(a) => {
                &&& a@.len() == 3
                &&& a@[0].reads_as(value.0)
                &&& a@[1].reads_as(value.1)
                &&& a@[2].reads_as(value.2)
            },
            _ => false,
        }
    }

    fn get(&'a self) -> (r: Option<(T, U, V)>) {
        match self {
            Config::Array(a) => if a.len() == 3 {
                let x: Option<T> = a[0].get();
                let y: Option<U> = a[1].get();
                let z: Option<V> = a[2].get();
                match (x, y, z) {
                    (Some(x), Some(y), Some(z)) => Some((x, y, z)),
                    _ => None,
                }
            } else {
                None
            },
            _ => None,
        }
    }
}

/// A sequence of exactly 4 elements reads as a tuple where each element
/// reads as the type at its position: all of them or nothing.
impl<'a, S, T, U, V> ConfigGet<'a, (S, T, U, V)> for Config where
    Config: ConfigGet<'a, S> + ConfigGet<'a, T> + ConfigGet<'a, U> + ConfigGet<'a, V>,
{
    open spec fn present(&self) -> bool {
        match self {
            Config::Array(a) => {
                &&& a@.len() == 4
                &&& <Config as ConfigGet<'a, S>>::present(&a@[0])
                &&& <Config as ConfigGet<'a, T>>::present(&a@[1])
                &&& <Config as ConfigGet<'a, U>>::present(&a@[2])
                &&& <Config as ConfigGet<'a, V>>::present(&a@[3])
            },
            _ => false,
        }
    }

    open spec fn reads_as(&self, value: (S, T, U, V)) -> bool {
        match self {
            Config::Array(a) => {
                &&& a@.len() == 4
                &&& a@[0].reads_as(value.0)
                &&& a@[1].reads_as(value.1)
                &&& a@[2].reads_as(value.2)
                &&& a@[3].reads_as(value.3)
            },
            _ => false,
        }
    }

    fn get(&'a self) -> (r: Option<(S, T, U, V)>) {
        match self {
            Config::Array(a) => if a.len() == 4 {
                let w: Option<S> = a[0].get();
                let x: Option<T> = a[1].get();
                let y: Option<U> = a[2].get();
                let z: Option<V> = a[3].get();
                match (w, x, y, z) {
                    (Some(w), Some(x), Some(y), Some(z)) => Some((w, x, y, z)),
                    _ => None,
                }
            } else {
                None
            },
            _ => None,
        }
    }
}

/// A sequence of exactly 1 element reads as an array where every element
/// reads as a `T`: all of them or nothing.
impl<'a, T> ConfigGet<'a, [T; 1]> for Config where Config: ConfigGet<'a, T> {
    open spec fn present(&self) -> bool {
        match self {
            Config::Array(a) => {
                &&& a@.len() == 1
                &&& <Config as ConfigGet<'a, T>>::present(&a@[0])
            },
            _ => false,
        }
    }

    open spec fn reads_as(&self, value: [T; 1]) -> bool {
        match self {
            Config::Array(a) => {
                &&& a@.len() == 1
                &&& a@[0].reads_as(value@[0])
            },
            _ => false,
        }
    }

    fn get(&'a self) -> (r: Option<[T; 1]>) {
        match self {
            Config::Array(a) => if a.len() == 1 {
                let z: Option<T> = a[0].get();
                match z {
                    Some(z) => Some([z]),
                    _ => None,
                }
            } else {
                None
            },
            _ => None,
        }
    }
}

/// A sequence of exactly 2 elements reads as an array where every element
/// reads as a `T`: all of them or nothing.
impl<'a, T> ConfigGet<'a, [T; 2]> for Config where Config: ConfigGet<'a, T> {
    open spec fn present(&self) -> bool {
        match self {
            Config::Array(a) => {
                &&& a@.len() == 2
                &&& <Config as ConfigGet<'a, T>>::present(&a@[0])
                &&& <Config as ConfigGet<'a, T>>::present(&a@[1])
            },
            _ => false,
        }
    }

    open spec fn reads_as(&self, value: [T; 2]) -> bool {
        match self {
            Config::Array(a) => {
                &&& a@.len() == 2
                &&& a@[0].reads_as(value@[0])
                &&& a@[1].reads_as(value@[1])
            },
            _ => false,
        }
    }

    fn get(&'a self) -> (r: Option<[T; 2]>) {
        match self {
            Config::Array(a) => if a.len() == 2 {
                let y: Option<T> = a[0].get();
                let z: Option<T> = a[1].get();
                match (y, z) {
                    (Some(y), Some(z)) => Some([y, z]),
                    _ => None,
                }
            } else {
                None
            },
            _ => None,
        }
    }
}

/// A sequence of exactly 3 elements reads as an array where every element
/// reads as a `T`: all of them or nothing.
impl<'a, T> ConfigGet<'a, [T; 3]> for Config where Config: ConfigGet<'a, T> {
    open spec fn present(&self) -> bool {
        match self {
            Config::Array(a) => {
                &&& a@.len() == 3
                &&& <Config as ConfigGet<'a, T>>::present(&a@[0])
                &&& <Config as ConfigGet<'a, T>>::present(&a@[1])
                &&& <Config as ConfigGet<'a, T>>::present(&a@[2])
            },
            _ => false,
        }
    }

    open spec fn reads_as(&self, value: [T; 3]) -> bool {
        match self {
            Config::Array(a) => {
                &&& a@.len() == 3
                &&& a@[0].reads_as(value@[0])
                &&& a@[1].reads_as(value@[1])
                &&& a@[2].reads_as(value@[2])
            },
            _ => false,
        }
    }

    fn get(&'a self) -> (r: Option<[T; 3]>) {
        match self {
            Config::Array(a) => if a.len() == 3 {
                let x: Option<T> = a[0].get();
                let y: Option<T> = a[1].get();
                let z: Option<T> = a[2].get();
                match (x, y, z) {
                    (Some(x), Some(y), Some(z)) => Some([x, y, z]),
                    _ => None,
                }
            } else {
                None
            },
            _ => None,
        }
    }
}

/// A sequence of exactly 4 elements reads as an array where every element
/// reads as a `T`: all of them or nothing.
impl<'a, T> ConfigGet<'a, [T; 4]> for Config where Config: ConfigGet<'a, T> {
    open spec fn present(&self) -> bool {
        match self {
            Config::Array(a) => {
                &&& a@.len() == 4
                &&& <Config as ConfigGet<'a, T>>::present(&a@[0])
                &&& <Config as ConfigGet<'a, T>>::present(&a@[1])
                &&& <Config as ConfigGet<'a, T>>::present(&a@[2])
                &&& <Config as ConfigGet<'a, T>>::present(&a@[3])
            },
            _ => false,
        }
    }

    open spec fn reads_as(&self, value: [T; 4]) -> bool {
        match self {
            Config::Array(a) => {
                &&& a@.len() == 4
                &&& a@[0].reads_as(value@[0])
                &&& a@[1].reads_as(value@[1])
                &&& a@[2].reads_as(value@[2])
                &&& a@[3].reads_as(value@[3])
            },
            _ => false,
        }
    }

    fn get(&'a self) -> (r: Option<[T; 4]>) {
        match self {
            Config::Array(a) => if a.len() == 4 {
                let w: Option<T> = a[0].get();
                let x: Option<T> = a[1].get();
                let y: Option<T> = a[2].get();
                let z: Option<T> = a[3].get();
                match (w, x, y, z) {
                    (Some(w), Some(x), Some(y), Some(z)) => Some([w, x, y, z]),
                    _ => None,
                }
            } else {
                None
            },
            _ => None,
        }
    }
}

} // verus!
