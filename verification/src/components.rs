//! Small plain types shared by the engine's systems.

use vstd::prelude::*;

verus! {

/// A width and a height.
#[derive(Clone, Copy, Debug, PartialEq, Eq)]
pub struct Size<T> {
    pub width: T,
    pub height: T,
}

/// The size of the window's drawable area, in pixels.
#[derive(Clone, Copy, Debug)]
pub struct WindowSize(pub Size<u32>);

impl WindowSize {
    /// The width in pixels.
    pub fn width(&self) -> (r: u32)
        ensures
            r == self.0.width,
    {
        self.0.width
    }

    /// The height in pixels.
    pub fn height(&self) -> (r: u32)
        ensures
            r == self.0.height,
    {
        self.0.height
    }

    /// The width and height together.
    pub fn size(&self) -> (r: Size<u32>)
        ensures
            r == self.0,
    {
        self.0
    }
}

/// Whether an entity is drawn.
#[derive(Clone, Copy, Debug, PartialEq, Eq, Structural)]
pub struct Visible {
    pub visible: bool,
}

impl Default for Visible {
    /// Entities are visible unless said otherwise.
    fn default() -> (r: Self)
        ensures
            r.visible,
    {
        Visible { visible: true }
    }
}

/// Marks the camera that is in use.
#[derive(Clone, Copy, Debug, PartialEq, Eq, Structural)]
pub struct CameraActive;

/// Marks an entity whose transform is relative to its parent's.
#[derive(Clone, Copy, Debug, PartialEq, Eq, Structural)]
pub struct UseParentTransform;

/// Marks a parent that is not a child itself.
#[derive(Clone, Copy, Debug, PartialEq, Eq, Structural)]
pub struct ParentRoot;

/// Marks an entity that the engine keeps up to date on its own, such as a
/// camera that follows the window's size.
#[derive(Clone, Copy, Debug, PartialEq, Eq, Structural)]
pub struct AutoUpdate;

/// An asset could not be loaded.
#[derive(Clone, Copy, Debug, PartialEq, Eq, Structural)]
pub struct AssetLoadError;

} // verus!
