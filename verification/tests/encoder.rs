use ttycast::encoder::{
    encoders_listed, no_encoder_message, pick_encoder, rtp_command, ts_command, H264_ENCODERS,
};

fn position(args: &[String], flag: &str) -> usize {
    args.iter().position(|a| a == flag).expect(flag)
}

#[test]
fn ts_command_declares_the_raw_input() {
    let cmd = ts_command(1280, 720, 5, "2M", "libx264");
    assert!(cmd.contains(&"rawvideo".to_string()));
    assert!(cmd.contains(&"1280x720".to_string()));
    assert_eq!(cmd[position(&cmd, "-r") + 1], "5");
    assert_eq!(cmd.last().unwrap(), "pipe:1");
}

#[test]
fn ts_command_muxes_to_mpegts() {
    let cmd = ts_command(640, 480, 10, "2M", "libx264");
    assert!(cmd.windows(2).any(|w| w[0] == "-f" && w[1] == "mpegts"));
}

#[test]
fn gop_follows_the_frame_rate() {
    let cmd = ts_command(640, 480, 5, "2M", "libx264");
    assert_eq!(cmd[position(&cmd, "-g") + 1], "10");
}

#[test]
fn bitrate_is_capped_not_just_targeted() {
    let cmd = ts_command(640, 480, 5, "3M", "libx264");
    for flag in ["-b:v", "-maxrate", "-bufsize"] {
        assert_eq!(cmd[position(&cmd, flag) + 1], "3M");
    }
}

#[test]
fn libx264_only_options_stay_with_libx264() {
    assert!(ts_command(640, 480, 5, "2M", "libx264").contains(&"-tune".to_string()));
    assert!(!ts_command(640, 480, 5, "2M", "libopenh264").contains(&"-tune".to_string()));
}

#[test]
fn vaapi_opens_the_device_before_the_input() {
    let cmd = ts_command(640, 480, 5, "2M", "h264_vaapi");
    assert!(position(&cmd, "-vaapi_device") < position(&cmd, "-i"));
    assert!(cmd.contains(&"format=nv12,hwupload".to_string()));
}

#[test]
fn rtp_command_targets_the_sink() {
    let cmd = rtp_command(1280, 720, 30, "192.168.49.1", 5000, "6M", "libx264");
    assert_eq!(cmd[cmd.len() - 2], "rtp_mpegts");
    let url = cmd.last().unwrap();
    assert!(url.starts_with("rtp://192.168.49.1:5000"));
    assert!(url.contains("pkt_size=1316"));
}

#[test]
fn pick_encoder_rejects_one_that_is_not_there() {
    let have = vec!["libx264".to_string(), "h264_vaapi".to_string()];
    assert_eq!(pick_encoder(Some("definitely_not_an_encoder"), &have), None);
}

#[test]
fn the_no_encoder_message_names_what_was_tried() {
    let message = no_encoder_message();
    for name in H264_ENCODERS {
        assert!(message.contains(name), "{name} missing from the advice");
    }
}

#[test]
fn the_best_present_encoder_is_picked() {
    let have = vec!["h264_nvenc".to_string(), "h264_vaapi".to_string()];
    assert_eq!(pick_encoder(None, &have).as_deref(), Some("h264_vaapi"));
    assert_eq!(pick_encoder(Some("h264_nvenc"), &have).as_deref(), Some("h264_nvenc"));
    assert_eq!(pick_encoder(None, &Vec::new()), None);
}

#[test]
fn the_encoder_listing_is_read_by_its_flags() {
    let listing = "Encoders:\n V..... = Video\n ------\n V....D libx264              libx264 H.264\n A....D aac                  AAC\n V....D h264_vaapi           H.264/AVC (VAAPI)\n";
    assert_eq!(encoders_listed(listing), ["=", "libx264", "h264_vaapi"]);
}

#[test]
fn a_zero_rate_still_has_a_keyframe_interval() {
    let cmd = ts_command(64, 64, 0, "1M", "libopenh264");
    assert_eq!(cmd[position(&cmd, "-g") + 1], "1");
    assert_eq!(cmd[position(&cmd, "-pix_fmt")..position(&cmd, "-pix_fmt") + 2], ["-pix_fmt", "rgb24"]);
}
