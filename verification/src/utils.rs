use vstd::prelude::*;

verus! {

/// How a page's logical size is classified: a standard paper size in upright
/// or sideways orientation, or a non-standard (custom) size.
#[derive(Clone, Copy, PartialEq, Eq, Structural, Debug)]
pub enum Orientation {
    Portrait,
    Landscape,
    Custom,
}

/// A page's logical extent, in integer engine units.
#[derive(Clone, Copy, PartialEq, Eq, Structural, Debug)]
pub struct Rect {
    pub width: u32,
    pub height: u32,
}

impl Rect {
    /// Upright when the rectangle is at least as tall as it is wide.
    pub open spec fn orientation_spec(self) -> Orientation {
        if self.width <= self.height {
            Orientation::Portrait
        } else {
            Orientation::Landscape
        }
    }

    /// Classifies the rectangle by comparing width against height; a square
    /// counts as upright.
    pub fn orientation(&self) -> (o: Orientation)
        ensures
            o == self.orientation_spec(),
    {
        if self.width <= self.height {
            Orientation::Portrait
        } else {
            Orientation::Landscape
        }
    }
}

/// A paper-size classification for a page: its extent plus whether the engine
/// recognized it as one of the standard paper sizes.
#[derive(Clone, Copy, PartialEq, Eq, Structural, Debug)]
pub struct PageSize {
    pub width: u32,
    pub height: u32,
    pub standard: bool,
}

impl PageSize {
    pub open spec fn layout_spec(self) -> Orientation {
        if !self.standard {
            Orientation::Custom
        } else if self.width <= self.height {
            Orientation::Portrait
        } else {
            Orientation::Landscape
        }
    }

    /// A non-standard size is custom; a standard one is classified by
    /// comparing width against height, consistently with `Rect::orientation`.
    pub fn layout(&self) -> (o: Orientation)
        ensures
            o == self.layout_spec(),
    {
        if !self.standard {
            Orientation::Custom
        } else if self.width <= self.height {
            Orientation::Portrait
        } else {
            Orientation::Landscape
        }
    }
}

/// A rasterized page ready for a host-side imaging API: tightly packed
/// 8-bit red-green-blue-alpha samples, four bytes per pixel.
pub struct ImageData {
    pub data: Vec<u8>,
    pub width: u32,
    pub height: u32,
}

impl ImageData {
    /// Four bytes for every pixel of a `width` by `height` raster.
    pub open spec fn wf(self) -> bool {
        self.data@.len() == 4 * (self.width as int) * (self.height as int)
    }

    pub fn new(data: Vec<u8>, width: u32, height: u32) -> (img: ImageData)
        requires
            data@.len() == 4 * (width as int) * (height as int),
        ensures
            img.wf(),
            img.data == data,
            img.width == width,
            img.height == height,
    {
        ImageData { data, width, height }
    }
}

} // verus!
