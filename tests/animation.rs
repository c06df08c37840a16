use tilescene::animation::Animation;
use tilescene::types::Rect;

fn frame(x: i32) -> Rect {
    Rect { x, y: 0, w: 8, h: 8 }
}

fn three_frames(looping: bool) -> Animation {
    Animation::new(vec![5, 5, 5], vec![frame(0), frame(8), frame(16)], looping)
}

#[test]
fn looping_frames_follow_durations() {
    let a = three_frames(true);
    for t in 0..5 {
        assert_eq!(a.get_frame(t), frame(0));
    }
    for t in 5..10 {
        assert_eq!(a.get_frame(t), frame(8));
    }
    for t in 10..15 {
        assert_eq!(a.get_frame(t), frame(16));
    }
    assert_eq!(a.get_frame(15), frame(0));
}

#[test]
fn non_looping_holds_last_frame() {
    let a = three_frames(false);
    assert_eq!(a.get_frame(13), frame(16));
    for t in [14usize, 15, 16, 100, 1000, usize::MAX] {
        assert_eq!(a.get_frame(t), frame(16));
    }
    assert_eq!(a.get_frame(9), frame(8));
}

#[test]
fn looping_is_periodic() {
    let a = Animation::new(vec![3, 1, 4], vec![frame(0), frame(8), frame(16)], true);
    for t in 0..8 {
        for k in 0..5 {
            assert_eq!(a.get_frame(t), a.get_frame(t + k * 8));
        }
    }
    assert_eq!(a.get_frame(3), frame(8));
    assert_eq!(a.get_frame(4), frame(16));
    assert_eq!(a.get_frame(8 * 7 + 3), frame(8));
}

#[test]
fn first_frame_at_time_zero() {
    assert_eq!(three_frames(true).get_frame(0), frame(0));
    assert_eq!(three_frames(false).get_frame(0), frame(0));
    let single = Animation::new(vec![1], vec![frame(24)], false);
    assert_eq!(single.get_frame(0), frame(24));
    assert_eq!(single.get_frame(7), frame(24));
}

#[test]
fn uneven_durations_select_by_running_total() {
    let a = Animation::new(vec![2, 10, 1], vec![frame(0), frame(8), frame(16)], false);
    assert_eq!(a.get_frame(1), frame(0));
    assert_eq!(a.get_frame(2), frame(8));
    assert_eq!(a.get_frame(11), frame(8));
    assert_eq!(a.get_frame(12), frame(16));
    assert_eq!(a.get_frame(50), frame(16));
}

#[test]
fn each_frame_holds_for_its_duration() {
    let durations = vec![2usize, 3, 4];
    let a = Animation::new(durations.clone(), vec![frame(0), frame(8), frame(16)], true);
    let mut counts = [0usize; 3];
    for t in 0..9 {
        let r = a.get_frame(t);
        let i = (r.x / 8) as usize;
        counts[i] += 1;
    }
    assert_eq!(counts.to_vec(), durations);
}

#[test]
fn non_looping_never_goes_back() {
    let a = Animation::new(vec![2, 3, 4], vec![frame(0), frame(8), frame(16)], false);
    let mut last = 0;
    for t in 0..40 {
        let x = a.get_frame(t).x;
        assert!(x >= last);
        last = x;
    }
    assert_eq!(last, 16);
}
