# the_rack

The logic of a small aarch64 microkernel, written and proved in Verus.

`src/` is the kernel as ordinary values. The frame allocator, the page tables
in physical memory, the task table, the message rendezvous, the notification
bits, the device tree and the virtio rings are structures that functions take
and give back. Nothing there touches a device register or executes a privileged
instruction: where the machine has to do something, a function returns what is
to be done, and the caller does it.

| Module | What it decides |
| --- | --- |
| `memory` | physical memory as bytes: reads, writes and copies |
| `frames` | which physical frames are taken, lowest first, always zeroed |
| `paging` | tables, permissions, translation, what EL0 may touch, whole address spaces |
| `tasks` | scheduling, spawning, exiting, faulting, reaping, restarting |
| `ipc` | send, receive, reply, and memory lent with a message |
| `notify` | notification bits and interrupt routing |
| `syscall` | the calls EL0 can make, and checking every argument of them |
| `exceptions` | what an exception was, and what it calls for |
| `fdt` | the device tree: header, walk, lookups, memory map |
| `virtio`, `virtqueue` | discovery, the feature handshake, and the rings |
| `timer`, `gic`, `uart`, `sync`, `semihosting` | the values that go into registers, and when |
| `text` | bytes that are text |

`Kernel::wf` is the invariant that holds it together: every task's address
space is a tree of its own, no frame has two owners, everything anybody owns is
taken, a task with a program to be restarted from has what that takes, and only
a task that has come to its end has an exit code. Every operation on a kernel
keeps it.

What holds of the kernel as a whole is stated as public proof functions, at the
end of the module it is about: that scheduling is strictly by priority, that no
task can reach another's memory, that a reply nobody is entitled to give
changes nothing, that a task gives back exactly the frames it took, and so on.

`app/` is the machine around it: registers, devices, switching stacks, and the
boot log. The reset vector, the exception vectors, the stack switch and the
programs that run at EL0 are assembly, linked in by name.

`tests/` runs the library on values, with physical memory and devices played by
the test.
