use stardust::resources::{FileIcon, ResourceKind, ResourceManagerError};

#[test]
fn extension_decides_how_a_resource_is_loaded() {
    assert_eq!(ResourceKind::from_extension("sdvx"), ResourceKind::Container);
    assert_eq!(ResourceKind::from_extension("vox"), ResourceKind::MagicaVoxel);
    assert_eq!(ResourceKind::from_extension(""), ResourceKind::Unknown);
    assert_eq!(ResourceKind::from_extension("SDVX"), ResourceKind::Unknown);
    assert_eq!(ResourceKind::from_extension("png"), ResourceKind::Unknown);
    assert_eq!(ResourceKind::from_extension("voxx"), ResourceKind::Unknown);
}

#[test]
fn extension_decides_the_icon() {
    assert_eq!(FileIcon::file_icon_from_extension("png"), FileIcon::Image);
    assert_eq!(FileIcon::file_icon_from_extension("jpeg"), FileIcon::Image);
    assert_eq!(FileIcon::file_icon_from_extension("sdvx"), FileIcon::VoxelModel);
    assert_eq!(FileIcon::file_icon_from_extension("vox"), FileIcon::VoxelModel);
    assert_eq!(FileIcon::file_icon_from_extension("wav"), FileIcon::Sound);
    assert_eq!(FileIcon::file_icon_from_extension("ogg"), FileIcon::Sound);
    assert_eq!(FileIcon::file_icon_from_extension("jpg"), FileIcon::Unknown);
    assert_eq!(FileIcon::file_icon_from_extension(""), FileIcon::Unknown);
}

#[test]
fn manager_errors_have_their_messages() {
    assert_eq!(ResourceManagerError::UnknownFileType.message(), "Unknown file type!");
    assert_eq!(
        ResourceManagerError::PathDoesntExist.message(),
        "Path does not exist or wasn't loaded!"
    );
}
