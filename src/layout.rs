use vstd::prelude::*;

verus! {

/// `a - b`, or 0 when `b` is larger.
pub open spec fn sat_sub(a: int, b: int) -> int {
    if a >= b {
        a - b
    } else {
        0
    }
}

/// The smaller of two integers.
pub open spec fn min_int(a: int, b: int) -> int {
    if a <= b {
        a
    } else {
        b
    }
}

/// A rectangle of terminal cells.
#[derive(Debug, Clone, Copy, PartialEq, Eq, Structural)]
pub struct Rect {
    pub x: u16,
    pub y: u16,
    pub width: u16,
    pub height: u16,
}

impl Rect {
    /// Whether the rectangle lies inside a frame of the given size whose
    /// corner is the origin.
    pub open spec fn within(self, frame_width: int, frame_height: int) -> bool {
        &&& self.x + self.width <= frame_width
        &&& self.y + self.height <= frame_height
    }

    /// Width left inside the rectangle's borders.
    pub fn inner_width(&self) -> (r: u16)
        ensures
            r == sat_sub(self.width as int, 2),
    {
        if self.width >= 2 {
            self.width - 2
        } else {
            0
        }
    }
}

/// Where each part of the dashboard is drawn.
#[derive(Debug, Clone, Copy, PartialEq, Eq, Structural)]
pub struct AppLayout {
    /// Session details: host, method, concurrency, headers.
    pub details_area: Rect,
    /// Below the details: the response time sparkline.
    pub headers_area: Rect,
    /// Right half: the status class bar chart.
    pub chart_area: Rect,
    /// Bottom line: throughput, mean response time, error percentage.
    pub stats_area: Rect,
    pub bar_width: u16,
    /// Width that each header line is padded to.
    pub col_max_width: u16,
}

/// Height of the details area: 5 lines plus the header lines, but never
/// reaching into the three bottom lines of the frame.
pub open spec fn details_height(frame_height: int, header_frame_height: int) -> int {
    min_int(5 + header_frame_height, sat_sub(frame_height, 3))
}

/// Splits a frame into the dashboard's areas: details and sparkline on the
/// left half, bar chart on the right half, statistics on the three bottom
/// lines. `header_frame_height` is the number of header lines plus one. A
/// frame too small for the details shrinks them; every area stays inside
/// the frame.
pub fn create_layout(frame: Rect, header_frame_height: u16) -> (r: AppLayout)
    ensures
        ({
            let w = frame.width as int;
            let h = frame.height as int;
            let half = w / 2;
            let dh = details_height(h, header_frame_height as int);
            &&& r.col_max_width == sat_sub(half, 4)
            &&& r.bar_width == sat_sub(half, 5) / 4
            &&& r.details_area == (Rect { x: 0, y: 0, width: half as u16, height: dh as u16 })
            &&& r.headers_area == (Rect {
                x: 0,
                y: dh as u16,
                width: half as u16,
                height: (sat_sub(h, 3) - dh) as u16,
            })
            &&& r.chart_area == (Rect {
                x: half as u16,
                y: 0,
                width: half as u16,
                height: sat_sub(h, 3) as u16,
            })
            &&& r.stats_area == (Rect {
                x: 0,
                y: sat_sub(h, 3) as u16,
                width: frame.width,
                height: min_int(3, h) as u16,
            })
        }),
        r.details_area.within(frame.width as int, frame.height as int),
        r.headers_area.within(frame.width as int, frame.height as int),
        r.chart_area.within(frame.width as int, frame.height as int),
        r.stats_area.within(frame.width as int, frame.height as int),
{
    let frame_width = frame.width;
    let frame_height = frame.height;
    let half = frame_width / 2;
    let col_max_width: u16 = if half >= 4 {
        half - 4
    } else {
        0
    };
    let bar_width: u16 = if half >= 5 {
        (half - 5) / 4
    } else {
        0
    };
    let above_stats: u16 = if frame_height >= 3 {
        frame_height - 3
    } else {
        0
    };
    let details_height: u16 = if header_frame_height <= above_stats && above_stats
        - header_frame_height >= 5 {
        5 + header_frame_height
    } else {
        above_stats
    };
    let stats_height: u16 = if frame_height >= 3 {
        3
    } else {
        frame_height
    };
    let details_area = Rect { x: 0, y: 0, width: half, height: details_height };
    let headers_area = Rect {
        x: 0,
        y: details_height,
        width: half,
        height: above_stats - details_height,
    };
    let chart_area = Rect { x: half, y: 0, width: half, height: above_stats };
    let stats_area = Rect { x: 0, y: above_stats, width: frame_width, height: stats_height };
    AppLayout { details_area, headers_area, chart_area, stats_area, bar_width, col_max_width }
}

} // verus!
