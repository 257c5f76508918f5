use stream_core::receiver::display::{
    align_up, detect_gpu_vendor, detect_registered_vendor, device_vendor, evaluate_dmabuf_support,
    find_memory_type, is_linear, make_bgra_frame, needs_recreate, number_vendor, nv12_layout,
    output_plan, pick_format, surface_size, texture_sizes, DrmDescriptor, DrmObject, DrmPlane,
    GpuVendor, LayoutError, Nv12Layout, OutputPlan, PixelFormat,
};

fn texts(s: &[&str]) -> Vec<String> {
    s.iter().map(|x| x.to_string()).collect()
}

#[test]
fn first_known_card_is_chosen() {
    assert_eq!(detect_gpu_vendor(&texts(&["0x1002\n"])), GpuVendor::Amd);
    assert_eq!(detect_gpu_vendor(&texts(&["0xffff", " 0x10DE \n", "0x8086"])), GpuVendor::Nvidia);
    assert_eq!(detect_gpu_vendor(&texts(&["\u{3000}0X8086\t"])), GpuVendor::Intel);
    assert_eq!(detect_gpu_vendor(&texts(&["", "0x1"])), GpuVendor::Unknown);
    assert_eq!(detect_gpu_vendor(&[]), GpuVendor::Unknown);
}

#[test]
fn vendor_numbers_are_known() {
    assert_eq!(number_vendor(&"0x1002".to_string()), GpuVendor::Amd);
    assert_eq!(number_vendor(&"0x8086".to_string()), GpuVendor::Intel);
    assert_eq!(number_vendor(&"0x10de".to_string()), GpuVendor::Nvidia);
    assert_eq!(number_vendor(&"0x10DE".to_string()), GpuVendor::Unknown);
}

#[test]
fn registered_devices_are_known() {
    assert_eq!(device_vendor("PCI\\VEN_1002&DEV_1"), GpuVendor::Amd);
    assert_eq!(device_vendor("PCI\\VEN_8086"), GpuVendor::Intel);
    assert_eq!(device_vendor("VEN_10DE"), GpuVendor::Nvidia);
    assert_eq!(device_vendor("VEN_10D"), GpuVendor::Unknown);
    assert_eq!(
        detect_registered_vendor(&texts(&["root", "pci\\ven_10de&dev_2", "pci\\ven_1002"])),
        GpuVendor::Nvidia
    );
}

#[test]
fn user_decides_on_sharing() {
    assert!(evaluate_dmabuf_support(true, true, false, GpuVendor::Nvidia));
    assert!(!evaluate_dmabuf_support(false, true, true, GpuVendor::Intel));
    assert!(!evaluate_dmabuf_support(false, false, true, GpuVendor::Nvidia));
    assert!(evaluate_dmabuf_support(false, false, true, GpuVendor::Amd));
    assert!(!evaluate_dmabuf_support(false, false, false, GpuVendor::Amd));
}

#[test]
fn aligned_is_the_next_multiple() {
    assert_eq!(align_up(0, 4096), 0);
    assert_eq!(align_up(1, 4096), 4096);
    assert_eq!(align_up(4096, 4096), 4096);
    assert_eq!(align_up(4097, 4096), 8192);
    assert_eq!(align_up(13, 0), 13);
}

#[test]
fn first_fitting_memory_is_found() {
    let flags = [0b01, 0b10, 0b11];
    assert_eq!(find_memory_type(&flags, 0b111, 0b10), Some(1));
    assert_eq!(find_memory_type(&flags, 0b101, 0b10), Some(2));
    assert_eq!(find_memory_type(&flags, 0b111, 0), Some(0));
    assert_eq!(find_memory_type(&flags, 0b001, 0b10), None);
}

#[test]
fn linear_layouts_are_known() {
    assert!(is_linear(0));
    assert!(is_linear(0x00ff_ffff_ffff_ffff));
    assert!(!is_linear(1));
}

fn plane(offset: u32, pitch: u32) -> DrmPlane {
    DrmPlane { offset, pitch }
}

#[test]
fn planes_are_found_in_either_shape() {
    let object = DrmObject { fd: 5, modifier: 0, size: 100 };
    let one = DrmDescriptor {
        objects: vec![object],
        layers: vec![vec![plane(0, 64), plane(640, 64)]],
    };
    let two = DrmDescriptor {
        objects: vec![object],
        layers: vec![vec![plane(0, 64)], vec![plane(640, 64)]],
    };
    let wanted = Nv12Layout { object, y: plane(0, 64), uv: plane(640, 64) };
    assert_eq!(nv12_layout(&one), Ok(wanted));
    assert_eq!(nv12_layout(&two), Ok(wanted));
}

#[test]
fn bad_descriptions_are_refused() {
    let object = DrmObject { fd: -1, modifier: 0, size: 100 };
    let none = DrmDescriptor { objects: vec![], layers: vec![vec![plane(0, 1)]] };
    assert_eq!(nv12_layout(&none), Err(LayoutError::NoObjectOrLayer));
    let single = DrmDescriptor { objects: vec![object], layers: vec![vec![plane(0, 1)]] };
    assert_eq!(nv12_layout(&single), Err(LayoutError::NotTwoPlanes));
    let closed = DrmDescriptor {
        objects: vec![object],
        layers: vec![vec![plane(0, 1), plane(1, 1)]],
    };
    assert_eq!(nv12_layout(&closed), Err(LayoutError::InvalidHandle));
    assert_eq!(LayoutError::InvalidHandle.message(), "DRM object fd is invalid");
    assert_eq!(
        LayoutError::NoObjectOrLayer.message(),
        "unexpected DRM descriptor: nb_objects or nb_layers < 1"
    );
    assert_eq!(
        LayoutError::NotTwoPlanes.message(),
        "NV12 DRM descriptor: expected 2 planes or 2 layers"
    );
}

#[test]
fn pictures_are_converted_where_needed() {
    assert_eq!(
        output_plan(PixelFormat::Vaapi, PixelFormat::Nv12, true),
        OutputPlan { share: true, download: true, convert: true, new_converter: true }
    );
    assert_eq!(
        output_plan(PixelFormat::Nv12, PixelFormat::Vaapi, true),
        OutputPlan { share: false, download: false, convert: false, new_converter: false }
    );
    assert_eq!(
        output_plan(PixelFormat::Other(3), PixelFormat::Other(3), false),
        OutputPlan { share: false, download: false, convert: true, new_converter: false }
    );
}

#[test]
fn card_memory_is_picked() {
    let offered = [PixelFormat::Nv12, PixelFormat::Vaapi];
    assert_eq!(pick_format(&offered), Some(PixelFormat::Vaapi));
    assert_eq!(pick_format(&offered[..1]), None);
}

#[test]
fn textures_follow_the_picture() {
    assert!(needs_recreate(None, 4, 4));
    assert!(needs_recreate(Some((4, 2)), 4, 4));
    assert!(!needs_recreate(Some((4, 4)), 4, 4));
    assert_eq!(texture_sizes(1921, 1080), ((1921, 1080), (960, 540)));
    assert_eq!(surface_size(0, 7), (1, 7));
}

#[test]
fn test_picture_has_its_stripes() {
    let f = make_bgra_frame(2, 2, 100);
    assert_eq!(
        f,
        vec![100, 200, 44, 255, 101, 200, 45, 255, 100, 201, 45, 255, 101, 201, 46, 255]
    );
}
