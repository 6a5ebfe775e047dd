//! What a resource is taken for, by the extension of its file name.

use vstd::prelude::*;

verus! {

/// Why the resource manager has nothing to give for a path.
#[derive(Clone, Copy, Debug, PartialEq, Eq, Structural)]
pub enum ResourceManagerError {
    UnknownFileType,
    PathDoesntExist,
}

/// How a resource is loaded.
#[derive(Clone, Copy, Debug, PartialEq, Eq, Structural)]
pub enum ResourceKind {
    /// A model container, read as it is.
    Container,
    /// A MagicaVoxel file, imported and stored as a container beside it.
    MagicaVoxel,
    /// Nothing that can be loaded.
    Unknown,
}

/// The icon under which a file is listed.
#[derive(Clone, Copy, Debug, PartialEq, Eq, Structural)]
pub enum FileIcon {
    Image,
    VoxelModel,
    Sound,
    Unknown,
}

/// Whether two texts are the same.
fn same_text(a: &str, b: &str) -> (r: bool)
    ensures
        r == (a@ == b@),
{
    a.to_owned() == b.to_owned()
}

impl ResourceManagerError {
    /// The error in words.
    pub fn message(&self) -> (s: String)
        ensures
            s@ == (match *self {
                ResourceManagerError::UnknownFileType => "Unknown file type!"@,
                ResourceManagerError::PathDoesntExist => "Path does not exist or wasn't loaded!"@,
            }),
    {
        match self {
            ResourceManagerError::UnknownFileType => "Unknown file type!".to_owned(),
            ResourceManagerError::PathDoesntExist => "Path does not exist or wasn't loaded!".to_owned(),
        }
    }
}

impl ResourceKind {
    /// The kind for an extension, as plain text.
    pub open spec fn spec_from_extension(extension: Seq<char>) -> ResourceKind {
        if extension == "sdvx"@ {
            ResourceKind::Container
        } else if extension == "vox"@ {
            ResourceKind::MagicaVoxel
        } else {
            ResourceKind::Unknown
        }
    }

    /// How a file with this extension is loaded: `sdvx` is a container,
    /// `vox` a MagicaVoxel file, anything else is unknown.
    pub fn from_extension(extension: &str) -> (k: ResourceKind)
        ensures
            k == ResourceKind::spec_from_extension(extension@),
    {
        if same_text(extension, "sdvx") {
            ResourceKind::Container
        } else if same_text(extension, "vox") {
            ResourceKind::MagicaVoxel
        } else {
            ResourceKind::Unknown
        }
    }
}

impl FileIcon {
    /// The icon for an extension, as plain text.
    pub open spec fn spec_from_extension(extension: Seq<char>) -> FileIcon {
        if extension == "png"@ || extension == "jpeg"@ {
            FileIcon::Image
        } else if extension == "sdvx"@ || extension == "vox"@ {
            FileIcon::VoxelModel
        } else if extension == "wav"@ || extension == "ogg"@ {
            FileIcon::Sound
        } else {
            FileIcon::Unknown
        }
    }

    /// The icon for a file with this extension.
    pub fn file_icon_from_extension(extension: &str) -> (i: FileIcon)
        ensures
            i == FileIcon::spec_from_extension(extension@),
    {
        if same_text(extension, "png") || same_text(extension, "jpeg") {
            FileIcon::Image
        } else if same_text(extension, "sdvx") || same_text(extension, "vox") {
            FileIcon::VoxelModel
        } else if same_text(extension, "wav") || same_text(extension, "ogg") {
            FileIcon::Sound
        } else {
            FileIcon::Unknown
        }
    }
}

} // verus!
