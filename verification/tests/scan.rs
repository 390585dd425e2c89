use ip_snipper::report::port_line;
use ip_snipper::report::render_report;
use ip_snipper::report::scan_complete_line;
use ip_snipper::report::sort_ports;
use ip_snipper::stride::worker_ports;

fn discovered(open: &[u16], workers: u16) -> Vec<u16> {
    let mut found: Vec<u16> = Vec::new();
    for i in 0..workers {
        for p in worker_ports(i, workers) {
            if open.contains(&p) {
                found.push(p);
            }
        }
    }
    found
}

#[test]
fn stride_partitions_every_port_once() {
    for &n in &[1u16, 3, 4, 64] {
        let mut seen = vec![0u32; 65536];
        for i in 0..n {
            for p in worker_ports(i, n) {
                seen[p as usize] += 1;
            }
        }
        assert_eq!(seen[0], 0);
        for p in 1..=65535usize {
            assert_eq!(seen[p], 1, "port {} under {} workers", p, n);
        }
    }
}

#[test]
fn stride_is_interleaved_and_ascending() {
    let ports = worker_ports(3, 4);
    assert_eq!(ports[0], 4);
    assert_eq!(ports[1], 8);
    assert_eq!(*ports.last().unwrap(), 65532);
    for w in ports.windows(2) {
        assert!(w[0] < w[1]);
    }
    let ports = worker_ports(0, 1);
    assert_eq!(ports.len(), 65535);
    assert_eq!(ports[0], 1);
    assert_eq!(*ports.last().unwrap(), 65535);
}

#[test]
fn sort_is_ascending_and_keeps_elements() {
    let mut v = vec![8080u16, 22, 65535, 443, 1];
    sort_ports(&mut v);
    assert_eq!(v, vec![1, 22, 443, 8080, 65535]);
}

#[test]
fn report_is_strictly_ascending_without_duplicates() {
    let mut v = vec![9090u16, 8080, 80, 9091, 8081];
    sort_ports(&mut v);
    for w in v.windows(2) {
        assert!(w[0] < w[1]);
    }
}

#[test]
fn empty_scan_yields_empty_report() {
    let mut v: Vec<u16> = Vec::new();
    sort_ports(&mut v);
    assert!(v.is_empty());
    let lines = render_report(&v);
    assert!(lines.is_empty());
}

#[test]
fn worker_count_never_changes_the_report() {
    let open = [8080u16, 9090];
    let mut with_one = discovered(&open, 1);
    let mut with_sixty_four = discovered(&open, 64);
    sort_ports(&mut with_one);
    sort_ports(&mut with_sixty_four);
    assert_eq!(with_one, vec![8080, 9090]);
    assert_eq!(with_sixty_four, vec![8080, 9090]);
}

#[test]
fn loopback_scenario_reports_two_ports_in_order() {
    let open = [22u16, 443];
    let mut found = discovered(&open, 4);
    sort_ports(&mut found);
    let lines = render_report(&found);
    assert_eq!(lines.len(), 2);
    assert_eq!(lines[0], "Port 22 is open");
    assert_eq!(lines[1], "Port 443 is open");
    assert_eq!(scan_complete_line(), "\nScan complete!");
}

#[test]
fn port_lines_are_formatted_in_decimal() {
    assert_eq!(port_line(0), "Port 0 is open");
    assert_eq!(port_line(7), "Port 7 is open");
    assert_eq!(port_line(1024), "Port 1024 is open");
    assert_eq!(port_line(65535), "Port 65535 is open");
}
